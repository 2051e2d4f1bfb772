//! Reading and writing frame's markdown files: tracks, the inbox and done
//! archives.
//!
//! A task is a checkbox line, `- [c] `ID` title #tag`, followed by lines
//! indented two further: `- key: value` metadata and subtasks. A note may run
//! over several lines, each indented two past its `- note:` line. The writer
//! emits one canonical form, and reading that form back gives the same tasks.

use vstd::prelude::*;
use crate::model::{
    Archive, Inbox, InboxItem, ItemV, Metadata, MetaV, NodeV, SectionKind, Task, TaskState, TaskV, Track, TrackNode, tasks_v,
};
use crate::text::{chars_of, lemma_find_char_from, find_char_from, push_str, string_of, substring, take_chars, trim_chars, trim_v};
use crate::refs::{join_chars, join_v, split_chars, split_from, split_v};
use crate::model::strs_v;

verus! {

// ---------------------------------------------------------------------------
// Lines
// ---------------------------------------------------------------------------

/// Whether `c` ends a line.
pub open spec fn is_nl(c: char) -> bool {
    c == '\n'
}

/// `p` without a final `\r`.
pub open spec fn strip_cr(p: Seq<char>) -> Seq<char> {
    if p.len() > 0 && p.last() == '\r' {
        p.drop_last()
    } else {
        p
    }
}

/// The lines of `s` as `str::lines` gives them: split at each `\n`, a `\r`
/// before the `\n` dropped, and no empty line after a final `\n`.
pub open spec fn lines_v(s: Seq<char>) -> Seq<Seq<char>> {
    let ps = split_v(s, '\n');
    let body = ps.drop_last().map_values(|p: Seq<char>| strip_cr(p));
    if ps.last().len() == 0 {
        body
    } else {
        body.push(ps.last())
    }
}

/// Whether some line of `s` ends in `\r\n`.
pub open spec fn crlf_v(s: Seq<char>) -> bool {
    let ps = split_v(s, '\n');
    exists|k: int| 0 <= k < ps.len() - 1 && (#[trigger] ps[k]).len() > 0 && ps[k].last() == '\r'
}

pub proof fn lemma_split_from(s: Seq<char>, c: char, i: int)
    requires
        0 <= i <= s.len(),
    ensures
        split_from(s, c, i).len() >= 1,
        forall|k: int| 0 <= k < split_from(s, c, i).len() ==> !(#[trigger] split_from(s, c, i)[k]).contains(c),
    decreases s.len() - i,
{
    lemma_find_char_from(s, c, i);
    match find_char_from(s, c, i) {
        None => {
            let p = s.subrange(i, s.len() as int);
            assert forall|m: int| 0 <= m < p.len() implies p[m] != c by {
                assert(p[m] == s[i + m]);
            }
        },
        Some(j) => {
            lemma_split_from(s, c, j + 1);
            let p = s.subrange(i, j);
            assert forall|m: int| 0 <= m < p.len() implies p[m] != c by {
                assert(p[m] == s[i + m]);
            }
            let rest = split_from(s, c, j + 1);
            assert forall|k: int| 0 <= k < split_from(s, c, i).len() implies !(#[trigger] split_from(s, c, i)[k]).contains(c) by {
                if k > 0 {
                    assert(split_from(s, c, i)[k] == rest[k - 1]);
                }
            }
        },
    }
}

/// Split text into lines as `str::lines` does (see [`lines_v`]). Also reports
/// whether any line ended in `\r\n`.
pub fn split_lines(text: &str) -> (r: (Vec<Vec<char>>, bool))
    ensures
        r.0@.map_values(|x: Vec<char>| x@) == lines_v(text@),
        r.1 == crlf_v(text@),
        forall|k: int| 0 <= k < r.0@.len() ==> !(#[trigger] r.0@[k])@.contains('\n'),
{
    let cs = chars_of(text);
    let parts = split_chars(&cs, '\n');
    let ghost ps = split_v(text@, '\n');
    proof {
        lemma_split_from(text@, '\n', 0);
        assert(parts@.len() == ps.len());
        assert forall|k: int| 0 <= k < ps.len() implies parts@[k]@ == ps[k] by {
            assert(parts@.map_values(|x: Vec<char>| x@)[k] == parts@[k]@);
        }
    }
    let n = parts.len();
    let mut out: Vec<Vec<char>> = Vec::new();
    let mut crlf = false;
    let mut i: usize = 0;
    while i + 1 < n
        invariant
            n == parts@.len() == ps.len() >= 1,
            i + 1 <= n,
            forall|k: int| 0 <= k < ps.len() ==> parts@[k]@ == ps[k],
            forall|k: int| 0 <= k < ps.len() ==> !(#[trigger] ps[k]).contains('\n'),
            out@.map_values(|x: Vec<char>| x@) == ps.take(i as int).map_values(|p: Seq<char>| strip_cr(p)),
            forall|k: int| 0 <= k < out@.len() ==> !(#[trigger] out@[k])@.contains('\n'),
            crlf == exists|k: int| 0 <= k < i && (#[trigger] ps[k]).len() > 0 && ps[k].last() == '\r',
        decreases n - i,
    {
        let p = &parts[i];
        let ghost before = out@.map_values(|x: Vec<char>| x@);
        let cut = p.len() > 0 && p[p.len() - 1] == '\r';
        let line = if cut {
            take_chars(p, p.len() - 1)
        } else {
            take_chars(p, p.len())
        };
        if cut {
            crlf = true;
        }
        proof {
            assert(line@ == strip_cr(ps[i as int])) by {
                if !cut {
                    assert(p@.subrange(0, p@.len() as int) =~= p@);
                } else {
                    assert(p@.subrange(0, p@.len() - 1) =~= p@.drop_last());
                }
            }
            assert forall|m: int| 0 <= m < line@.len() implies line@[m] != '\n' by {
                assert(line@[m] == ps[i as int][m]);
            }
        }
        out.push(line);
        proof {
            assert(out@.map_values(|x: Vec<char>| x@) =~= before.push(strip_cr(ps[i as int])));
            assert(ps.take(i + 1).map_values(|p: Seq<char>| strip_cr(p))
                =~= ps.take(i as int).map_values(|p: Seq<char>| strip_cr(p)).push(strip_cr(ps[i as int])));
        }
        i += 1;
    }
    assert(ps.take(i as int) =~= ps.drop_last());
    let last = &parts[n - 1];
    if last.len() > 0 {
        let line = take_chars(last, last.len());
        assert(last@.subrange(0, last@.len() as int) =~= last@);
        let ghost before = out@.map_values(|x: Vec<char>| x@);
        out.push(line);
        assert(out@.map_values(|x: Vec<char>| x@) =~= before.push(ps.last()));
    }
    (out, crlf)
}

/// The number of spaces `l[i..]` starts with.
pub open spec fn lead_from(l: Seq<char>, i: int) -> int
    decreases l.len() - i,
{
    if i < 0 || i >= l.len() || l[i] != ' ' {
        0
    } else {
        1 + lead_from(l, i + 1)
    }
}

/// The number of spaces a line starts with.
pub open spec fn lead(l: Seq<char>) -> int {
    lead_from(l, 0)
}

/// Whether a line holds only whitespace.
pub open spec fn blank_v(l: Seq<char>) -> bool {
    trim_v(l).len() == 0
}

/// The number of spaces a line starts with.
pub fn indent_of(line: &[char]) -> (r: usize)
    ensures
        r == lead(line@),
        r <= line@.len(),
        forall|k: int| 0 <= k < r ==> line@[k] == ' ',
        r < line@.len() ==> line@[r as int] != ' ',
{
    let mut i: usize = 0;
    while i < line.len() && line[i] == ' '
        invariant
            i <= line@.len(),
            forall|k: int| 0 <= k < i ==> line@[k] == ' ',
            lead(line@) == i + lead_from(line@, i as int),
        decreases line.len() - i,
    {
        i += 1;
    }
    i
}

/// Whether a line holds only whitespace.
pub fn is_blank_line(line: &[char]) -> (r: bool)
    ensures
        r == blank_v(line@),
{
    trim_chars(line).len() == 0
}

/// Whether `line[at..]` begins with the characters of `p`.
fn has_at(line: &[char], at: usize, p: &[char]) -> (r: bool)
    ensures
        r == (at + p@.len() <= line@.len() && line@.subrange(at as int, at + p@.len()) == p@),
{
    if at > line.len() || p.len() > line.len() - at {
        return false;
    }
    let mut i: usize = 0;
    while i < p.len()
        invariant
            i <= p@.len(),
            at + p@.len() <= line@.len(),
            forall|k: int| 0 <= k < i ==> line@[at + k] == p@[k],
        decreases p.len() - i,
    {
        assert(line@.len() == line.len());
        if line[at + i] != p[i] {
            assert(line@.subrange(at as int, at + p@.len())[i as int] != p@[i as int]);
            return false;
        }
        i += 1;
    }
    assert(line@.subrange(at as int, at + p@.len()) =~= p@);
    true
}

/// Whether a character stands for a task state in a checkbox.
pub open spec fn is_state_char(c: char) -> bool {
    c == ' ' || c == '>' || c == '-' || c == '!' || c == 'x' || c == 'X' || c == '~'
}

/// Whether `l` starts with exactly `n` spaces.
pub open spec fn indented_exactly(l: Seq<char>, n: int) -> bool {
    &&& 0 <= n <= l.len()
    &&& forall|k: int| 0 <= k < n ==> l[k] == ' '
    &&& n < l.len() ==> l[n] != ' '
}

/// Whether `l` is a checkbox line `- [c]` at exactly `indent`, followed by
/// its end or a space.
pub open spec fn task_line_at_v(l: Seq<char>, indent: int) -> bool {
    &&& indented_exactly(l, indent)
    &&& indent + 5 <= l.len()
    &&& l[indent] == '-' && l[indent + 1] == ' ' && l[indent + 2] == '['
    &&& is_state_char(l[indent + 3]) && l[indent + 4] == ']'
    &&& (l.len() == indent + 5 || l[indent + 5] == ' ')
}

/// The state a checkbox character stands for; `!` reads as blocked too.
pub fn state_of_char(c: char) -> (r: Option<TaskState>)
    ensures
        c == ' ' ==> r == Some(TaskState::Todo),
        c == '>' ==> r == Some(TaskState::Active),
        c == '-' || c == '!' ==> r == Some(TaskState::Blocked),
        c == 'x' || c == 'X' ==> r == Some(TaskState::Done),
        c == '~' ==> r == Some(TaskState::Parked),
        r is Some <==> is_state_char(c),
{
    if c == ' ' {
        Some(TaskState::Todo)
    } else if c == '>' {
        Some(TaskState::Active)
    } else if c == '-' || c == '!' {
        Some(TaskState::Blocked)
    } else if c == 'x' || c == 'X' {
        Some(TaskState::Done)
    } else if c == '~' {
        Some(TaskState::Parked)
    } else {
        None
    }
}

/// The checkbox character a state is written with.
pub fn char_of_state(s: TaskState) -> (r: char)
    ensures
        s == TaskState::Todo ==> r == ' ',
        s == TaskState::Active ==> r == '>',
        s == TaskState::Blocked ==> r == '-',
        s == TaskState::Done ==> r == 'x',
        s == TaskState::Parked ==> r == '~',
{
    match s {
        TaskState::Todo => ' ',
        TaskState::Active => '>',
        TaskState::Blocked => '-',
        TaskState::Done => 'x',
        TaskState::Parked => '~',
    }
}

/// Whether the line is a checkbox line at exactly this indent.
pub fn is_task_line_at(line: &[char], indent: usize) -> (r: bool)
    ensures
        r ==> indent + 5 <= line@.len(),
        r == task_line_at_v(line@, indent as int),
{
    let w = indent_of(line);
    if w != indent {
        proof {
            if indented_exactly(line@, indent as int) {
                if w < indent {
                    assert(line@[w as int] == ' ');
                } else {
                    assert(line@[indent as int] == ' ');
                }
            }
        }
        return false;
    }
    if line.len() - indent < 5 {
        return false;
    }
    line[indent] == '-' && line[indent + 1] == ' ' && line[indent + 2] == '[' && line[indent + 4]
        == ']' && state_of_char(line[indent + 3]).is_some() && (line.len() == indent + 5
        || line[indent + 5] == ' ')
}

// ---------------------------------------------------------------------------
// Titles and tags
// ---------------------------------------------------------------------------

/// The non-empty pieces of a sequence of pieces.
pub open spec fn nonempty(v: Seq<Seq<char>>) -> Seq<Seq<char>>
    decreases v.len(),
{
    if v.len() == 0 {
        Seq::empty()
    } else if v.last().len() == 0 {
        nonempty(v.drop_last())
    } else {
        nonempty(v.drop_last()).push(v.last())
    }
}

/// The space-separated words of a text.
pub open spec fn words_v(s: Seq<char>) -> Seq<Seq<char>> {
    nonempty(split_v(trim_v(s), ' '))
}

/// Whether a word is a `#tag`.
pub open spec fn is_tag_word(w: Seq<char>) -> bool {
    w.len() > 1 && w[0] == '#'
}

/// Where the trailing run of `#tag` words begins.
pub open spec fn tag_start(w: Seq<Seq<char>>) -> int
    decreases w.len(),
{
    if w.len() == 0 {
        0
    } else if is_tag_word(w.last()) {
        tag_start(w.drop_last())
    } else {
        w.len() as int
    }
}

/// The title part of a title line: the words before the trailing tags,
/// joined by single spaces.
pub open spec fn title_v(s: Seq<char>) -> Seq<char> {
    let w = words_v(s);
    join_v(w.take(tag_start(w)), ' ')
}

/// The tags of a title line, without their `#`.
pub open spec fn tags_v(s: Seq<char>) -> Seq<Seq<char>> {
    let w = words_v(s);
    w.skip(tag_start(w)).map_values(|x: Seq<char>| x.drop_first())
}

proof fn lemma_tag_start(w: Seq<Seq<char>>)
    ensures
        0 <= tag_start(w) <= w.len(),
        forall|k: int| tag_start(w) <= k < w.len() ==> is_tag_word(#[trigger] w[k]),
    decreases w.len(),
{
    if w.len() > 0 && is_tag_word(w.last()) {
        lemma_tag_start(w.drop_last());
        assert forall|k: int| tag_start(w) <= k < w.len() implies is_tag_word(#[trigger] w[k]) by {
            if k < w.len() - 1 {
                assert(w[k] == w.drop_last()[k]);
            }
        }
    }
}

/// Split a title line into its title and its trailing `#tag` words.
pub fn parse_title_and_tags(text: &str) -> (r: (String, Vec<String>))
    ensures
        r.0@ == title_v(text@),
        strs_v(r.1@) == tags_v(text@),
{
    let cs = trim_chars(&chars_of(text));
    let pieces = split_chars(&cs, ' ');
    let ghost pv = pieces@.map_values(|x: Vec<char>| x@);
    let mut words: Vec<Vec<char>> = Vec::new();
    let mut i: usize = 0;
    while i < pieces.len()
        invariant
            i <= pieces@.len(),
            pv == pieces@.map_values(|x: Vec<char>| x@),
            words@.map_values(|x: Vec<char>| x@) == nonempty(pv.take(i as int)),
        decreases pieces.len() - i,
    {
        assert(pv.take(i + 1).drop_last() =~= pv.take(i as int));
        if pieces[i].len() > 0 {
            let ghost before = words@.map_values(|x: Vec<char>| x@);
            words.push(crate::text::take_chars(&pieces[i], pieces[i].len()));
            assert(pieces@[i as int]@.subrange(0, pieces@[i as int]@.len() as int) =~= pieces@[i as int]@);
            assert(words@.map_values(|x: Vec<char>| x@) =~= before.push(pv[i as int]));
        }
        i += 1;
    }
    assert(pv.take(pieces@.len() as int) =~= pv);
    let ghost wv = words@.map_values(|x: Vec<char>| x@);
    assert(wv == words_v(text@));
    // The trailing run of `#word`s are the tags.
    let mut first_tag = words.len();
    assert(wv.take(first_tag as int) =~= wv);
    while first_tag > 0 && words[first_tag - 1].len() > 1 && words[first_tag - 1][0] == '#'
        invariant
            first_tag <= words@.len(),
            wv == words@.map_values(|x: Vec<char>| x@),
            tag_start(wv) == tag_start(wv.take(first_tag as int)),
        decreases first_tag,
    {
        assert(wv.take(first_tag - 1) =~= wv.take(first_tag as int).drop_last());
        assert(is_tag_word(wv.take(first_tag as int).last()));
        first_tag -= 1;
    }
    proof {
        if first_tag > 0 {
            assert(!is_tag_word(wv.take(first_tag as int).last()));
        }
    }
    assert(tag_start(wv) == first_tag);
    let mut head: Vec<Vec<char>> = Vec::new();
    let mut k: usize = 0;
    while k < first_tag
        invariant
            k <= first_tag <= words@.len(),
            wv == words@.map_values(|x: Vec<char>| x@),
            head@.map_values(|x: Vec<char>| x@) == wv.take(k as int),
        decreases first_tag - k,
    {
        let ghost before = head@.map_values(|x: Vec<char>| x@);
        head.push(crate::text::take_chars(&words[k], words[k].len()));
        assert(words@[k as int]@.subrange(0, words@[k as int]@.len() as int) =~= words@[k as int]@);
        assert(wv[k as int] == words@[k as int]@);
        assert(head@.map_values(|x: Vec<char>| x@) =~= before.push(wv[k as int]));
        assert(wv.take(k as int).push(wv[k as int]) =~= wv.take(k + 1));
        k += 1;
    }
    let title_chars = join_chars(&head, ' ');
    let title = string_of(&title_chars);
    let mut tags: Vec<String> = Vec::new();
    let mut t = first_tag;
    proof { lemma_tag_start(wv); }
    while t < words.len()
        invariant
            first_tag <= t <= words@.len(),
            first_tag == tag_start(wv),
            wv == words@.map_values(|x: Vec<char>| x@),
            forall|j: int| first_tag <= j < wv.len() ==> is_tag_word(#[trigger] wv[j]),
            strs_v(tags@) == wv.subrange(first_tag as int, t as int).map_values(|x: Seq<char>| x.drop_first()),
        decreases words.len() - t,
    {
        let w = &words[t];
        assert(wv[t as int] == w@);
        assert(is_tag_word(wv[t as int]));
        let ghost before = strs_v(tags@);
        tags.push(substring(w, 1, w.len()));
        assert(w@.subrange(1, w@.len() as int) =~= w@.drop_first());
        assert(strs_v(tags@) =~= before.push(wv[t as int].drop_first()));
        assert(wv.subrange(first_tag as int, t as int).map_values(|x: Seq<char>| x.drop_first()).push(wv[t as int].drop_first())
            =~= wv.subrange(first_tag as int, t + 1).map_values(|x: Seq<char>| x.drop_first()));
        t += 1;
    }
    assert(wv.subrange(first_tag as int, wv.len() as int) =~= wv.skip(first_tag as int));
    (title, tags)
}

// ---------------------------------------------------------------------------
// Tasks
// ---------------------------------------------------------------------------

/// The end of a field key that starts at `i`: the first `:` or space, or
/// the end of the line.
pub open spec fn key_end(l: Seq<char>, i: int) -> int
    decreases l.len() - i,
{
    if i < 0 || i >= l.len() || l[i] == ':' || l[i] == ' ' {
        i
    } else {
        key_end(l, i + 1)
    }
}

/// The key of a `- key: value` line at exactly `indent`, with the position
/// just past its colon.
pub open spec fn meta_key_at(l: Seq<char>, indent: int) -> Option<(Seq<char>, int)> {
    let e = key_end(l, indent + 2);
    if indented_exactly(l, indent) && l.len() - indent >= 3 && l[indent] == '-' && l[indent + 1] == ' '
        && e < l.len() && l[e] == ':' && e > indent + 2 {
        Some((l.subrange(indent + 2, e), e + 1))
    } else {
        None
    }
}

/// `key` of a `- key: value` line at this indent, with the position just past
/// its colon.
fn metadata_key(line: &[char], indent: usize) -> (r: Option<(Vec<char>, usize)>)
    ensures
        r matches Some((_, p)) ==> p <= line@.len(),
        match r {
            Some((k, p)) => meta_key_at(line@, indent as int) == Some((k@, p as int)),
            None => meta_key_at(line@, indent as int) is None,
        },
{
    let w = indent_of(line);
    proof {
        if w != indent && indented_exactly(line@, indent as int) {
            if w < indent {
                assert(line@[w as int] == ' ');
            } else {
                assert(line@[indent as int] == ' ');
            }
        }
    }
    if w != indent || line.len() - indent < 3 {
        return None;
    }
    if line[indent] != '-' || line[indent + 1] != ' ' {
        return None;
    }
    let mut i = indent + 2;
    let mut key: Vec<char> = Vec::new();
    while i < line.len() && line[i] != ':' && line[i] != ' '
        invariant
            indent + 2 <= i <= line@.len(),
            key_end(line@, indent + 2) == key_end(line@, i as int),
            key@ == line@.subrange(indent + 2, i as int),
        decreases line.len() - i,
    {
        key.push(line[i]);
        assert(key@ =~= line@.subrange(indent + 2, i + 1));
        i += 1;
    }
    assert(key_end(line@, i as int) == i);
    if i < line.len() && line[i] == ':' && key.len() > 0 {
        Some((key, i + 1))
    } else {
        None
    }
}

fn chars_are(v: &Vec<char>, s: &str) -> (r: bool)
    ensures
        r == (v@ == s@),
{
    let t = chars_of(s);
    crate::text::seq_eq(v, &t)
}

/// The entries of a comma-separated list: each piece trimmed, the empty
/// ones dropped.
pub open spec fn list_entries(v: Seq<char>) -> Seq<Seq<char>> {
    nonempty(split_v(v, ',').map_values(|p: Seq<char>| trim_v(p)))
}

/// Split a comma-separated list, trimming each entry and dropping empties.
pub fn split_list(v: &[char]) -> (r: Vec<String>)
    ensures
        strs_v(r@) == list_entries(v@),
{
    let pieces = crate::refs::split_chars(v, ',');
    let ghost ps = split_v(v@, ',').map_values(|p: Seq<char>| trim_v(p));
    let mut out: Vec<String> = Vec::new();
    let mut i: usize = 0;
    while i < pieces.len()
        invariant
            i <= pieces@.len(),
            pieces@.map_values(|x: Vec<char>| x@) == split_v(v@, ','),
            ps == split_v(v@, ',').map_values(|p: Seq<char>| trim_v(p)),
            strs_v(out@) == nonempty(ps.take(i as int)),
        decreases pieces.len() - i,
    {
        let t = trim_chars(&pieces[i]);
        assert(pieces@.map_values(|x: Vec<char>| x@)[i as int] == pieces@[i as int]@);
        assert(ps[i as int] == t@);
        assert(ps.take(i + 1).drop_last() =~= ps.take(i as int));
        let ghost ob = strs_v(out@);
        if t.len() > 0 {
            out.push(string_of(&t));
            assert(strs_v(out@) =~= ob.push(t@));
        }
        i += 1;
    }
    assert(ps.take(i as int) =~= ps);
    out
}

/// The state a checkbox character stands for, `Todo` for any other.
pub open spec fn char_state(c: char) -> TaskState {
    if c == '>' {
        TaskState::Active
    } else if c == '-' || c == '!' {
        TaskState::Blocked
    } else if c == 'x' || c == 'X' {
        TaskState::Done
    } else if c == '~' {
        TaskState::Parked
    } else {
        TaskState::Todo
    }
}

/// `i`, or one past it when `l[i]` is a space.
pub open spec fn skip_space(l: Seq<char>, i: int) -> int {
    if 0 <= i < l.len() && l[i] == ' ' { i + 1 } else { i }
}

/// The backquoted ID after the checkbox of a line at `indent`, with the
/// position where the title starts after it.
pub open spec fn head_id(l: Seq<char>, indent: int) -> Option<(Seq<char>, int)> {
    let i = skip_space(l, indent + 5);
    if i < l.len() && l[i] == '`' {
        match find_char_from(l, '`', i + 1) {
            Some(j) => Some((l.subrange(i + 1, j), skip_space(l, j + 1))),
            None => None,
        }
    } else {
        None
    }
}

/// Where the title of a checkbox line at `indent` starts.
pub open spec fn head_rest(l: Seq<char>, indent: int) -> int {
    match head_id(l, indent) {
        Some((_, p)) => p,
        None => skip_space(l, indent + 5),
    }
}

/// The task a checkbox line at `indent` reads as, before its fields and
/// subtasks.
pub open spec fn head_v(l: Seq<char>, indent: int, depth: usize) -> TaskV {
    let rest = l.subrange(head_rest(l, indent), l.len() as int);
    TaskV {
        state: char_state(l[indent + 3]),
        id: match head_id(l, indent) {
            Some((id, _)) => Some(id),
            None => None,
        },
        title: title_v(rest),
        tags: tags_v(rest),
        metadata: Seq::empty(),
        subtasks: Seq::empty(),
        extra_lines: Seq::empty(),
        depth,
        dirty: false,
    }
}

/// Parse the checkbox line of a task: its state, ID, title and tags.
fn parse_task_head(line: &[char], indent: usize, depth: usize) -> (r: Task)
    requires
        indent + 5 <= line@.len(),
    ensures
        r@ == head_v(line@, indent as int, depth),
{
    assert(line@.len() == line.len());
    let state = match state_of_char(line[indent + 3]) {
        Some(s) => s,
        None => TaskState::Todo,
    };
    assert(state == char_state(line@[indent + 3]));
    let mut i = indent + 5;
    if i < line.len() && line[i] == ' ' {
        i += 1;
    }
    let mut id: Option<String> = None;
    if i < line.len() && line[i] == '`' {
        match crate::text::find_char(line, '`', i + 1) {
            Some(j) => {
                proof { lemma_find_char_from(line@, '`', i + 1); }
                id = Some(substring(line, i + 1, j));
                i = j + 1;
                if i < line.len() && line[i] == ' ' {
                    i += 1;
                }
            },
            None => {},
        }
    }
    assert(i == head_rest(line@, indent as int));
    let rest = substring(line, i, line.len());
    let (title, tags) = parse_title_and_tags(rest.as_str());
    let mut t = Task::new(state, id, title);
    t.tags = tags;
    t.depth = depth;
    t.dirty = false;
    proof {
        assert(crate::model::opt_str_v(id) == match head_id(line@, indent as int) {
            Some((x, _)) => Some(x),
            None => None::<Seq<char>>,
        });
        assert(t@.subtasks =~= Seq::<TaskV>::empty());
        assert(t@ == head_v(line@, indent as int, depth));
    }
    t
}

/// `n` newlines.
pub open spec fn newlines(n: nat) -> Seq<char> {
    Seq::new(n, |i: int| '\n')
}

/// The body of a block note read from line `j` on, each line `bi` or more
/// spaces in, blank lines kept where the block goes on: the body read so far
/// is `body`, `pending` blank lines wait, and `end` is one past the last line
/// taken. Gives the body and where the block ends.
pub open spec fn note_block(lines: Seq<Seq<char>>, j: int, bi: int, body: Seq<char>, first: bool, pending: nat, end: int) -> (Seq<char>, int)
    decreases lines.len() - j,
{
    if j < 0 || j >= lines.len() {
        (body, end)
    } else if blank_v(lines[j]) {
        note_block(lines, j + 1, bi, body, first, pending + 1, end)
    } else if lead(lines[j]) < bi {
        (body, end)
    } else {
        let piece = lines[j].subrange(bi, lines[j].len() as int);
        note_block(lines, j + 1, bi, body + newlines(pending) + (if first { Seq::empty() } else { seq!['\n'] }) + piece,
            false, 0, j + 1)
    }
}

/// The field a `- key: value` line gives, if its key is one frame knows.
pub open spec fn field_of(key: Seq<char>, value: Seq<char>) -> Option<MetaV> {
    if key == "dep"@ {
        Some(MetaV::Dep(list_entries(value)))
    } else if key == "ref"@ {
        Some(MetaV::Ref(list_entries(value)))
    } else if key == "spec"@ {
        Some(MetaV::Spec(value))
    } else if key == "added"@ {
        Some(MetaV::Added(value))
    } else if key == "resolved"@ {
        Some(MetaV::Resolved(value))
    } else if key == "conflict"@ {
        Some(MetaV::Conflict(value))
    } else if key == "note"@ {
        Some(MetaV::Note(value))
    } else {
        None
    }
}

pub open spec fn with_field(t: TaskV, m: Option<MetaV>) -> TaskV {
    match m {
        Some(f) => TaskV { metadata: t.metadata.push(f), ..t },
        None => t,
    }
}

/// The depth of a task's subtasks, held at the largest `usize`.
pub open spec fn sub_depth(depth: usize) -> usize {
    if depth < usize::MAX { (depth + 1) as usize } else { depth }
}

/// The length of the longest of `lines`.
pub open spec fn max_len(lines: Seq<Seq<char>>) -> int
    decreases lines.len(),
{
    if lines.len() == 0 {
        0
    } else {
        let m = max_len(lines.drop_last());
        if lines.last().len() > m { lines.last().len() as int } else { m }
    }
}

pub proof fn lemma_max_len(lines: Seq<Seq<char>>, k: int)
    requires
        0 <= k < lines.len(),
    ensures
        lines[k].len() <= max_len(lines),
    decreases lines.len(),
{
    if k < lines.len() - 1 {
        lemma_max_len(lines.drop_last(), k);
    }
}

/// The tasks at `indent` from line `start` on, and the first line past them.
pub open spec fn tasks_at(lines: Seq<Seq<char>>, start: int, indent: int, depth: usize) -> (Seq<TaskV>, int)
    decreases lines.len() - start, max_len(lines) - indent, 2int,
{
    if 0 <= start < lines.len() && 0 <= indent && task_line_at_v(lines[start], indent) {
        let (t, n) = one_task(lines, start, indent, depth);
        if start < n <= lines.len() {
            let (rest, e) = tasks_at(lines, n, indent, depth);
            (seq![t] + rest, e)
        } else {
            (seq![t], n)
        }
    } else {
        (Seq::empty(), start)
    }
}

/// The task a checkbox line reads as before its fields and subtasks.
pub open spec fn head_of(l: Seq<char>, indent: int, depth: usize) -> TaskV {
    if l.len() >= indent + 5 {
        head_v(l, indent, depth)
    } else {
        TaskV {
            state: TaskState::Todo,
            id: None,
            title: Seq::empty(),
            tags: Seq::empty(),
            metadata: Seq::empty(),
            subtasks: Seq::empty(),
            extra_lines: Seq::empty(),
            depth: 0,
            dirty: false,
        }
    }
}

/// The task whose checkbox line is `lines[at]`, and the first line past it.
pub open spec fn one_task(lines: Seq<Seq<char>>, at: int, indent: int, depth: usize) -> (TaskV, int)
    decreases lines.len() - at, max_len(lines) - indent, 1int,
{
    if 0 <= at < lines.len() {
        task_body(lines, at + 1, indent, depth, head_of(lines[at], indent, depth))
    } else {
        (head_of(Seq::empty(), indent, depth), at + 1)
    }
}

/// The rest of the task `t` from line `i` on: its fields, subtasks and stray
/// lines, everything indented past `indent` up to a blank line or one
/// indented less. Gives the task and the first line past it.
pub open spec fn task_body(lines: Seq<Seq<char>>, i: int, indent: int, depth: usize, t: TaskV) -> (TaskV, int)
    decreases lines.len() - i, max_len(lines) - indent, 0int,
{
    let child = indent + 2;
    if i < 0 || i >= lines.len() || blank_v(lines[i]) || lead(lines[i]) < child {
        (t, i)
    } else if 0 <= indent && task_line_at_v(lines[i], child) {
        proof {
            lemma_max_len(lines, i);
        }
        let (subs, next) = tasks_at(lines, i, child, sub_depth(depth));
        let t2 = TaskV { subtasks: t.subtasks + subs, ..t };
        let ni = if next == i { i + 1 } else { next };
        if i < ni <= lines.len() {
            task_body(lines, ni, indent, depth, t2)
        } else {
            (t2, ni)
        }
    } else {
        let l = lines[i];
        match meta_key_at(l, child) {
            Some((key, after)) => {
                let value = trim_v(l.subrange(after, l.len() as int));
                if key == "note"@ && value.len() == 0 {
                    let (b, end) = note_block(lines, i + 1, child + 2, Seq::empty(), true, 0, i + 1);
                    if i < end <= lines.len() {
                        task_body(lines, end, indent, depth, with_field(t, Some(MetaV::Note(b))))
                    } else {
                        (with_field(t, Some(MetaV::Note(b))), end)
                    }
                } else {
                    task_body(lines, i + 1, indent, depth, with_field(t, field_of(key, value)))
                }
            },
            None => task_body(lines, i + 1, indent, depth, TaskV { extra_lines: t.extra_lines.push(l), ..t }),
        }
    }
}

/// Parse the tasks that start at line `start` at this indent, returning them
/// and the index of the first line that is not part of them.
pub fn parse_tasks(lines: &Vec<Vec<char>>, start: usize, indent: usize, depth: usize) -> (r: (
    Vec<Task>,
    usize,
))
    requires
        start <= lines@.len(),
    ensures
        start <= r.1 <= lines@.len(),
        r.0@.len() <= r.1 - start,
        (tasks_v(r.0@), r.1 as int) == tasks_at(chars_lines(lines@), start as int, indent as int, depth),
    decreases lines@.len() - start, 1int,
{
    let ghost l = chars_lines(lines@);
    let mut tasks: Vec<Task> = Vec::new();
    let mut i = start;
    while i < lines.len() && is_task_line_at(&lines[i], indent)
        invariant
            start <= i <= lines@.len(),
            tasks@.len() <= i - start,
            l == chars_lines(lines@),
            tasks_at(l, start as int, indent as int, depth)
                == (tasks_v(tasks@) + tasks_at(l, i as int, indent as int, depth).0, tasks_at(l, i as int, indent as int, depth).1),
        decreases lines@.len() - i,
    {
        assert(l[i as int] == lines@[i as int]@);
        let (t, next) = parse_one_task(lines, i, indent, depth);
        let ghost tb = tasks_v(tasks@);
        tasks.push(t);
        assert(tasks_v(tasks@) =~= tb.push(t@));
        proof {
            let rest = tasks_at(l, next as int, indent as int, depth);
            assert(tasks_at(l, i as int, indent as int, depth) == (seq![t@] + rest.0, rest.1));
            assert(tb + (seq![t@] + rest.0) =~= tasks_v(tasks@) + rest.0);
        }
        i = next;
    }
    proof {
        assert(tasks_at(l, i as int, indent as int, depth) == (Seq::<TaskV>::empty(), i as int));
        assert(tasks_v(tasks@) + Seq::<TaskV>::empty() =~= tasks_v(tasks@));
    }
    (tasks, i)
}

/// Read a block note starting at line `i`, each line at least `body_indent`
/// in; gives the body and the first line past the block.
fn read_note_block(lines: &Vec<Vec<char>>, i: usize, body_indent: usize) -> (r: (String, usize))
    requires
        i <= lines@.len(),
    ensures
        i <= r.1 <= lines@.len(),
        (r.0@, r.1 as int) == note_block(chars_lines(lines@), i as int, body_indent as int, Seq::empty(), true, 0, i as int),
{
    let ghost l = chars_lines(lines@);
    let mut body = String::new();
    let mut first = true;
    let mut pending: usize = 0;
    let mut end = i;
    let mut j = i;
    while j < lines.len() && (is_blank_line(&lines[j]) || indent_of(&lines[j]) >= body_indent)
        invariant
            i <= end <= j <= lines@.len(),
            pending <= j,
            l == chars_lines(lines@),
            note_block(l, i as int, body_indent as int, Seq::empty(), true, 0, i as int)
                == note_block(l, j as int, body_indent as int, body@, first, pending as nat, end as int),
        decreases lines@.len() - j,
    {
        let b = &lines[j];
        assert(l[j as int] == b@);
        if is_blank_line(b) {
            pending += 1;
        } else {
            let ghost b0 = body@;
            let mut k: usize = 0;
            while k < pending
                invariant
                    k <= pending,
                    body@ == b0 + newlines(k as nat),
                decreases pending - k,
            {
                body.push('\n');
                assert(body@ =~= b0 + newlines((k + 1) as nat));
                k += 1;
            }
            let ghost b1 = body@;
            if !first {
                body.push('\n');
            }
            assert(body@ =~= b0 + newlines(pending as nat) + (if first { Seq::<char>::empty() } else { seq!['\n'] }));
            first = false;
            pending = 0;
            let piece = substring(b, body_indent, b.len());
            push_str(&mut body, piece.as_str());
            end = j + 1;
        }
        j += 1;
    }
    (body, end)
}

/// Parse one task whose checkbox line is `lines[at]`.
fn parse_one_task(lines: &Vec<Vec<char>>, at: usize, indent: usize, depth: usize) -> (r: (
    Task,
    usize,
))
    requires
        at < lines@.len(),
    ensures
        at < r.1 <= lines@.len(),
        (r.0@, r.1 as int) == one_task(chars_lines(lines@), at as int, indent as int, depth),
    decreases lines@.len() - at, 0int,
{
    broadcast use crate::task_ops::lemma_task_v_subtasks;
    let ghost l = chars_lines(lines@);
    assert(lines@.len() == lines.len());
    let line = &lines[at];
    assert(l[at as int] == line@);
    let mut task = if line.len() >= 5 && line.len() - 5 >= indent {
        parse_task_head(line, indent, depth)
    } else {
        Task::new(TaskState::Todo, None, String::new())
    };
    task.dirty = false;
    proof {
        if line@.len() < indent + 5 {
            assert(task@ =~= head_of(line@, indent as int, depth));
        }
    }
    let ghost head = task@;
    assert(head == head_of(l[at as int], indent as int, depth));
    if indent > usize::MAX - 2 {
        // No line is long enough to hold a field or subtask this deep.
        if at + 1 < lines.len() {
            let _ = indent_of(&lines[at + 1]);
            assert(l[at + 1] == lines@[at + 1]@);
        }
        return (task, at + 1);
    }
    let child = indent + 2;
    let mut i = at + 1;
    while i < lines.len() && !is_blank_line(&lines[i]) && indent_of(&lines[i]) >= child
        invariant
            at < i <= lines@.len(),
            child == indent + 2,
            l == chars_lines(lines@),
            task_body(l, at + 1, indent as int, depth, head) == task_body(l, i as int, indent as int, depth, task@),
        decreases lines@.len() - i,
    {
        let lref = &lines[i];
        assert(l[i as int] == lref@);
        let ghost tb = task@;
        let _ = lref.len();
        if is_task_line_at(lref, child) {
            let sub_d = if depth < usize::MAX { depth + 1 } else { depth };
            let (subs, next) = parse_tasks(lines, i, child, sub_d);
            let ghost sv = tasks_v(subs@);
            let mut subs = subs;
            task.subtasks.append(&mut subs);
            assert(task@.subtasks =~= tb.subtasks + sv);
            assert(task@ == TaskV { subtasks: tb.subtasks + sv, ..tb });
            if next == i {
                i += 1;
            } else {
                i = next;
            }
        } else if let Some((key, after)) = metadata_key(lref, child) {
            let raw = substring(lref, after, lref.len());
            let value = trim_chars(&chars_of(raw.as_str()));
            let ghost vv = value@;
            assert(vv == trim_v(l[i as int].subrange(after as int, l[i as int].len() as int)));
            i += 1;
            if chars_are(&key, "note") && value.len() == 0 {
                assert(child + 3 <= lref@.len());
                let (body, end) = read_note_block(lines, i, child + 2);
                i = end;
                let ghost mb = task.metadata@;
                task.metadata.push(Metadata::Note(body));
                assert(crate::model::metas_v(task.metadata@) =~= crate::model::metas_v(mb).push(MetaV::Note(body@)));
                assert(task@ == with_field(tb, Some(MetaV::Note(body@))));
            } else {
                let mut m: Option<Metadata> = None;
                if chars_are(&key, "dep") {
                    m = Some(Metadata::Dep(split_list(&value)));
                } else if chars_are(&key, "ref") {
                    m = Some(Metadata::Ref(split_list(&value)));
                } else if chars_are(&key, "spec") {
                    m = Some(Metadata::Spec(string_of(&value)));
                } else if chars_are(&key, "added") {
                    m = Some(Metadata::Added(string_of(&value)));
                } else if chars_are(&key, "resolved") {
                    m = Some(Metadata::Resolved(string_of(&value)));
                } else if chars_are(&key, "conflict") {
                    m = Some(Metadata::Conflict(string_of(&value)));
                } else if chars_are(&key, "note") {
                    m = Some(Metadata::Note(string_of(&value)));
                }
                match m {
                    Some(f) => {
                        assert(field_of(key@, vv) == Some(crate::model::meta_v(f)));
                        let ghost mb = task.metadata@;
                        task.metadata.push(f);
                        assert(crate::model::metas_v(task.metadata@) =~= crate::model::metas_v(mb).push(crate::model::meta_v(f)));
                        assert(task@ == with_field(tb, field_of(key@, vv)));
                    },
                    None => {
                        assert(field_of(key@, vv) is None);
                    },
                }
            }
        } else {
            let ghost eb = task.extra_lines@;
            let sl = string_of(lref);
            task.extra_lines.push(sl);
            assert(strs_v(task.extra_lines@) =~= strs_v(eb).push(l[i as int]));
            assert(task@ == TaskV { extra_lines: tb.extra_lines.push(l[i as int]), ..tb });
            i += 1;
        }
    }
    (task, i)
}

// ---------------------------------------------------------------------------
// Writing tasks
// ---------------------------------------------------------------------------

/// `n` spaces.
pub open spec fn spaces_v(n: nat) -> Seq<char> {
    Seq::new(n, |i: int| ' ')
}

/// The pieces joined with `sep` between each pair.
pub open spec fn join_sep(parts: Seq<Seq<char>>, sep: Seq<char>) -> Seq<char>
    decreases parts.len(),
{
    if parts.len() == 0 {
        Seq::empty()
    } else if parts.len() == 1 {
        parts[0]
    } else {
        join_sep(parts.drop_last(), sep) + sep + parts.last()
    }
}

/// The checkbox character of a state.
pub open spec fn state_char(s: TaskState) -> char {
    match s {
        TaskState::Todo => ' ',
        TaskState::Active => '>',
        TaskState::Blocked => '-',
        TaskState::Done => 'x',
        TaskState::Parked => '~',
    }
}

/// ` #tag` for each tag, in order.
pub open spec fn tags_text(tags: Seq<Seq<char>>) -> Seq<char>
    decreases tags.len(),
{
    if tags.len() == 0 {
        Seq::empty()
    } else {
        tags_text(tags.drop_last()) + " #"@ + tags.last()
    }
}

/// The checkbox line of a task at `indent`.
pub open spec fn task_line_v(t: TaskV, indent: nat) -> Seq<char> {
    spaces_v(indent) + "- ["@ + seq![state_char(t.state)] + "]"@
        + (match t.id {
        Some(id) => " `"@ + id + "`"@,
        None => Seq::empty(),
    }) + (if t.title.len() > 0 { seq![' '] + t.title } else { Seq::empty() }) + tags_text(t.tags)
}

/// A `- key: value` line at `indent`; just `- key:` for an empty value.
pub open spec fn meta_line_v(indent: nat, key: Seq<char>, value: Seq<char>) -> Seq<char> {
    spaces_v(indent) + "- "@ + key + ":"@ + (if value.len() > 0 { seq![' '] + value } else { Seq::empty() })
}

/// The indent two past `indent`, held below the largest `usize`.
pub open spec fn child_cap(indent: nat) -> nat {
    if indent < usize::MAX - 2 { indent + 2 } else { indent }
}

/// One line of a note body at `indent`; an empty piece is an empty line.
pub open spec fn body_line_v(indent: nat, piece: Seq<char>) -> Seq<char> {
    if piece.len() == 0 { Seq::empty() } else { spaces_v(indent) + piece }
}

/// The lines of a note at `indent`: one `- note: text` line, or for a note
/// of several lines `- note:` and then each line of the body two further in.
pub open spec fn note_lines_v(indent: nat, note: Seq<char>) -> Seq<Seq<char>> {
    if !note.contains('\n') {
        seq![meta_line_v(indent, "note"@, note)]
    } else {
        seq![meta_line_v(indent, "note"@, Seq::empty())]
            + split_v(note, '\n').map_values(|p: Seq<char>| body_line_v(child_cap(indent), p))
    }
}

/// The lines of one field at `indent`.
pub open spec fn meta_lines_v(m: MetaV, indent: nat) -> Seq<Seq<char>> {
    match m {
        MetaV::Dep(v) => seq![meta_line_v(indent, "dep"@, join_sep(v, ", "@))],
        MetaV::Ref(v) => seq![meta_line_v(indent, "ref"@, join_sep(v, ", "@))],
        MetaV::Spec(v) => seq![meta_line_v(indent, "spec"@, v)],
        MetaV::Note(v) => note_lines_v(indent, v),
        MetaV::Added(v) => seq![meta_line_v(indent, "added"@, v)],
        MetaV::Resolved(v) => seq![meta_line_v(indent, "resolved"@, v)],
        MetaV::Conflict(v) => seq![meta_line_v(indent, "conflict"@, v)],
    }
}

/// The lines of the fields `ms` at `indent`, in order.
pub open spec fn metas_lines_v(ms: Seq<MetaV>, indent: nat) -> Seq<Seq<char>>
    decreases ms.len(),
{
    if ms.len() == 0 {
        Seq::empty()
    } else {
        metas_lines_v(ms.drop_last(), indent) + meta_lines_v(ms.last(), indent)
    }
}

/// The lines of a task at `indent`: its checkbox line, its fields, its stray
/// lines, then its subtasks two further in.
pub open spec fn task_lines_v(t: TaskV, indent: nat) -> Seq<Seq<char>>
    decreases t, 0int,
{
    seq![task_line_v(t, indent)] + metas_lines_v(t.metadata, child_cap(indent)) + t.extra_lines
        + tasks_lines_v(t.subtasks, child_cap(indent), 0)
}

/// The lines of `ts[i..]` at `indent`.
pub open spec fn tasks_lines_v(ts: Seq<TaskV>, indent: nat, i: int) -> Seq<Seq<char>>
    decreases ts, ts.len() - i,
{
    if i < 0 || i >= ts.len() {
        Seq::empty()
    } else {
        task_lines_v(ts[i], indent) + tasks_lines_v(ts, indent, i + 1)
    }
}

fn spaces(n: usize) -> (r: String)
    ensures
        r@ == spaces_v(n as nat),
{
    let mut s = String::new();
    let mut i: usize = 0;
    while i < n
        invariant
            i <= n,
            s@ == spaces_v(i as nat),
        decreases n - i,
    {
        s.push(' ');
        assert(s@ =~= spaces_v((i + 1) as nat));
        i += 1;
    }
    s
}

fn join_list(v: &Vec<String>) -> (r: String)
    ensures
        r@ == join_sep(strs_v(v@), ", "@),
{
    let ghost sv = strs_v(v@);
    let mut s = String::new();
    let mut i: usize = 0;
    while i < v.len()
        invariant
            i <= v@.len(),
            sv == strs_v(v@),
            s@ == join_sep(sv.take(i as int), ", "@),
        decreases v.len() - i,
    {
        assert(sv.take(i + 1).drop_last() =~= sv.take(i as int));
        assert(sv.take(i + 1).last() == v@[i as int]@);
        if i > 0 {
            push_str(&mut s, ", ");
        } else {
            assert(s@ =~= Seq::<char>::empty());
        }
        push_str(&mut s, v[i].as_str());
        i += 1;
    }
    assert(sv.take(i as int) =~= sv);
    s
}

/// A task's own checkbox line.
pub fn task_line(task: &Task, indent: usize) -> (r: String)
    ensures
        r@ == task_line_v(task@, indent as nat),
{
    let mut s = spaces(indent);
    push_str(&mut s, "- [");
    s.push(char_of_state(task.state));
    push_str(&mut s, "]");
    let ghost head = s@;
    match &task.id {
        Some(id) => {
            push_str(&mut s, " `");
            push_str(&mut s, id.as_str());
            push_str(&mut s, "`");
        },
        None => {},
    }
    let ghost with_id = s@;
    if task.title.as_str().unicode_len() > 0 {
        s.push(' ');
        push_str(&mut s, task.title.as_str());
    }
    let ghost with_title = s@;
    assert(with_title == with_id + (if task@.title.len() > 0 { seq![' '] + task@.title } else { Seq::<char>::empty() }));
    let ghost tv = strs_v(task.tags@);
    let mut i: usize = 0;
    while i < task.tags.len()
        invariant
            i <= task.tags@.len(),
            tv == strs_v(task.tags@),
            s@ == with_title + tags_text(tv.take(i as int)),
        decreases task.tags.len() - i,
    {
        assert(tv.take(i + 1).drop_last() =~= tv.take(i as int));
        assert(tv.take(i + 1).last() == task.tags@[i as int]@);
        push_str(&mut s, " #");
        push_str(&mut s, task.tags[i].as_str());
        i += 1;
    }
    assert(tv.take(i as int) =~= tv);
    assert(task@.tags == tv);
    s
}

fn meta_line(out: &mut Vec<String>, indent: usize, key: &str, value: &str)
    ensures
        strs_v(final(out)@) == strs_v(old(out)@).push(meta_line_v(indent as nat, key@, value@)),
{
    let mut s = spaces(indent);
    push_str(&mut s, "- ");
    push_str(&mut s, key);
    push_str(&mut s, ":");
    if value.unicode_len() > 0 {
        s.push(' ');
        push_str(&mut s, value);
    }
    assert(s@ =~= meta_line_v(indent as nat, key@, value@));
    out.push(s);
    assert(strs_v(out@) =~= strs_v(old(out)@).push(meta_line_v(indent as nat, key@, value@)));
}

fn note_lines(out: &mut Vec<String>, indent: usize, note: &str)
    ensures
        strs_v(final(out)@) == strs_v(old(out)@) + note_lines_v(indent as nat, note@),
{
    let cs = chars_of(note);
    if !crate::text::has_char(&cs, '\n') {
        meta_line(out, indent, "note", note);
        assert(strs_v(out@) =~= strs_v(old(out)@) + note_lines_v(indent as nat, note@));
        return;
    }
    meta_line(out, indent, "note", "");
    proof { reveal_strlit(""); }
    assert(""@ =~= Seq::<char>::empty());
    let body_indent = if indent < usize::MAX - 2 { indent + 2 } else { indent };
    let pieces = split_chars(&cs, '\n');
    let ghost ps = split_v(note@, '\n');
    let ghost f = |p: Seq<char>| body_line_v(child_cap(indent as nat), p);
    let ghost base = strs_v(out@);
    let mut i: usize = 0;
    while i < pieces.len()
        invariant
            i <= pieces@.len(),
            pieces@.map_values(|x: Vec<char>| x@) == ps,
            ps == split_v(note@, '\n'),
            f == (|p: Seq<char>| body_line_v(child_cap(indent as nat), p)),
            body_indent as nat == child_cap(indent as nat),
            strs_v(out@) == base + ps.take(i as int).map_values(f),
        decreases pieces.len() - i,
    {
        assert(ps[i as int] == pieces@[i as int]@);
        let ghost ob = strs_v(out@);
        body_line(out, body_indent, &pieces[i]);
        assert(ps.take(i + 1).map_values(f) =~= ps.take(i as int).map_values(f).push(f(ps[i as int])));
        assert(strs_v(out@) =~= base + ps.take(i + 1).map_values(f));
        i += 1;
    }
    assert(ps.take(i as int) =~= ps);
    assert(strs_v(out@) =~= strs_v(old(out)@) + note_lines_v(indent as nat, note@));
}

fn body_line(out: &mut Vec<String>, indent: usize, cur: &Vec<char>)
    ensures
        strs_v(final(out)@) == strs_v(old(out)@).push(body_line_v(indent as nat, cur@)),
{
    if cur.len() == 0 {
        out.push(String::new());
    } else {
        let mut s = spaces(indent);
        let piece = string_of(cur);
        push_str(&mut s, piece.as_str());
        out.push(s);
    }
    assert(strs_v(out@) =~= strs_v(old(out)@).push(body_line_v(indent as nat, cur@)));
}

/// The lines of one field at `indent`.
fn field_lines(out: &mut Vec<String>, indent: usize, m: &Metadata)
    ensures
        strs_v(final(out)@) == strs_v(old(out)@) + meta_lines_v(crate::model::meta_v(*m), indent as nat),
{
    match m {
        Metadata::Dep(v) => { let j = join_list(v); meta_line(out, indent, "dep", j.as_str()); },
        Metadata::Ref(v) => { let j = join_list(v); meta_line(out, indent, "ref", j.as_str()); },
        Metadata::Spec(v) => meta_line(out, indent, "spec", v.as_str()),
        Metadata::Note(v) => note_lines(out, indent, v.as_str()),
        Metadata::Added(v) => meta_line(out, indent, "added", v.as_str()),
        Metadata::Resolved(v) => meta_line(out, indent, "resolved", v.as_str()),
        Metadata::Conflict(v) => meta_line(out, indent, "conflict", v.as_str()),
    }
    proof {
        if !(*m is Note) {
            assert(strs_v(final(out)@) =~= strs_v(old(out)@) + meta_lines_v(crate::model::meta_v(*m), indent as nat));
        }
    }
}

/// The lines of a task list, each task followed by its metadata and its
/// subtasks.
pub fn serialize_tasks(tasks: &[Task], indent: usize) -> (r: Vec<String>)
    ensures
        strs_v(r@) == tasks_lines_v(tasks_v(tasks@), indent as nat, 0),
    decreases tasks@,
{
    let ghost tv = tasks_v(tasks@);
    let mut out: Vec<String> = Vec::new();
    let mut i: usize = 0;
    while i < tasks.len()
        invariant
            i <= tasks@.len(),
            tv == tasks_v(tasks@),
            strs_v(out@) + tasks_lines_v(tv, indent as nat, i as int) == tasks_lines_v(tv, indent as nat, 0),
        decreases tasks.len() - i,
    {
        let t = &tasks[i];
        let ghost t_v = tv[i as int];
        assert(t_v == t@);
        let ghost base = strs_v(out@);
        out.push(task_line(t, indent));
        assert(strs_v(out@) =~= base + seq![task_line_v(t_v, indent as nat)]);
        let mi = if indent < usize::MAX - 2 { indent + 2 } else { indent };
        let ghost b1 = strs_v(out@);
        let ghost mv = t_v.metadata;
        assert(mv == crate::model::metas_v(t.metadata@));
        let mut k: usize = 0;
        while k < t.metadata.len()
            invariant
                k <= t.metadata@.len(),
                mv == crate::model::metas_v(t.metadata@),
                mi as nat == child_cap(indent as nat),
                strs_v(out@) == b1 + metas_lines_v(mv.take(k as int), mi as nat),
            decreases t.metadata.len() - k,
        {
            assert(mv.take(k + 1).drop_last() =~= mv.take(k as int));
            assert(mv.take(k + 1).last() == crate::model::meta_v(t.metadata@[k as int]));
            let ghost ob = strs_v(out@);
            field_lines(&mut out, mi, &t.metadata[k]);
            assert(strs_v(out@) =~= b1 + metas_lines_v(mv.take(k + 1), mi as nat));
            k += 1;
        }
        assert(mv.take(k as int) =~= mv);
        let ghost b2 = strs_v(out@);
        let mut e: usize = 0;
        while e < t.extra_lines.len()
            invariant
                e <= t.extra_lines@.len(),
                strs_v(out@) == b2 + strs_v(t.extra_lines@).take(e as int),
            decreases t.extra_lines.len() - e,
        {
            let ghost ob = strs_v(out@);
            let line = String::from_str(t.extra_lines[e].as_str());
            assert(line@ == t.extra_lines@[e as int]@);
            out.push(line);
            assert(strs_v(out@) =~= ob.push(line@));
            assert(strs_v(t.extra_lines@).take(e + 1) =~= strs_v(t.extra_lines@).take(e as int).push(t.extra_lines@[e as int]@));
            assert(strs_v(out@) =~= b2 + strs_v(t.extra_lines@).take(e + 1));
            e += 1;
        }
        assert(strs_v(t.extra_lines@).take(e as int) =~= t_v.extra_lines);
        proof {
            assert(decreases_to!(tasks@ => tasks@[i as int]));
            assert(decreases_to!(tasks@[i as int] => tasks@[i as int].subtasks));
        }
        let ghost b3 = strs_v(out@);
        let mut sub = serialize_tasks(t.subtasks.as_slice(), mi);
        assert(tasks_v(t.subtasks@) =~= t_v.subtasks);
        let ghost sv = strs_v(sub@);
        out.append(&mut sub);
        assert(strs_v(out@) =~= b3 + sv);
        assert(strs_v(out@) =~= base + task_lines_v(t_v, indent as nat));
        i += 1;
        assert(strs_v(out@) + tasks_lines_v(tv, indent as nat, i as int) =~= base + tasks_lines_v(tv, indent as nat, i - 1));
    }
    assert(strs_v(out@) =~= strs_v(out@) + tasks_lines_v(tv, indent as nat, i as int));
    out
}

// ---------------------------------------------------------------------------
// Tracks
// ---------------------------------------------------------------------------

pub open spec fn chars_lines(lines: Seq<Vec<char>>) -> Seq<Seq<char>> {
    lines.map_values(|x: Vec<char>| x@)
}

pub(crate) fn lines_to_strings(lines: &Vec<Vec<char>>, from: usize, to: usize) -> (r: Vec<String>)
    requires
        from <= to <= lines@.len(),
    ensures
        strs_v(r@) == chars_lines(lines@).subrange(from as int, to as int),
{
    let mut out: Vec<String> = Vec::new();
    let mut i = from;
    while i < to
        invariant
            from <= i <= to <= lines@.len(),
            strs_v(out@) == chars_lines(lines@).subrange(from as int, i as int),
        decreases to - i,
    {
        let ghost ob = strs_v(out@);
        let l = string_of(&lines[i]);
        assert(l@ == chars_lines(lines@)[i as int]);
        out.push(l);
        assert(strs_v(out@) =~= ob.push(l@));
        assert(strs_v(out@) =~= chars_lines(lines@).subrange(from as int, i + 1));
        i += 1;
    }
    out
}

/// The section a heading line opens, if it is one of the three.
pub open spec fn heading_v(l: Seq<char>) -> Option<SectionKind> {
    let t = trim_v(l);
    if t == "## Backlog"@ {
        Some(SectionKind::Backlog)
    } else if t == "## Parked"@ {
        Some(SectionKind::Parked)
    } else if t == "## Done"@ {
        Some(SectionKind::Done)
    } else {
        None
    }
}

/// The section a `## ` heading line opens, if it is one of the three.
pub(crate) fn heading_kind(line: &Vec<char>) -> (r: Option<SectionKind>)
    ensures
        r == heading_v(line@),
{
    let t = trim_chars(line);
    if chars_are(&t, "## Backlog") {
        Some(SectionKind::Backlog)
    } else if chars_are(&t, "## Parked") {
        Some(SectionKind::Parked)
    } else if chars_are(&t, "## Done") {
        Some(SectionKind::Done)
    } else {
        None
    }
}

/// The first line from `j` on that is not blank.
pub open spec fn skip_blank(lines: Seq<Seq<char>>, j: int) -> int
    decreases lines.len() - j,
{
    if j < 0 || j >= lines.len() || !blank_v(lines[j]) {
        j
    } else {
        skip_blank(lines, j + 1)
    }
}

/// The top-level tasks from line `start` on, carrying on past blank lines
/// that sit between two tasks, and the first line past the last task.
pub open spec fn task_block(lines: Seq<Seq<char>>, start: int) -> (Seq<TaskV>, int)
    decreases lines.len() - start,
{
    let (ts, next) = tasks_at(lines, start, 0, 0);
    let j = skip_blank(lines, next);
    if j > next && j < lines.len() && task_line_at_v(lines[j], 0) && start < j {
        let (more, e) = task_block(lines, j);
        (ts + more, e)
    } else {
        (ts, next)
    }
}

/// Parse top-level tasks from `start`, carrying on past blank lines that sit
/// between two tasks.
fn parse_task_block(lines: &Vec<Vec<char>>, start: usize) -> (r: (Vec<Task>, usize))
    requires
        start <= lines@.len(),
    ensures
        start <= r.1 <= lines@.len(),
        (tasks_v(r.0@), r.1 as int) == task_block(chars_lines(lines@), start as int),
{
    let ghost l = chars_lines(lines@);
    let mut tasks: Vec<Task> = Vec::new();
    let mut i = start;
    loop
        invariant
            start <= i <= lines@.len(),
            l == chars_lines(lines@),
            task_block(l, start as int) == (tasks_v(tasks@) + task_block(l, i as int).0, task_block(l, i as int).1),
        decreases lines@.len() - i,
    {
        let (mut more, next) = parse_tasks(lines, i, 0, 0);
        let ghost tb = tasks_v(tasks@);
        let ghost mv = tasks_v(more@);
        tasks.append(&mut more);
        assert(tasks_v(tasks@) =~= tb + mv);
        let mut j = next;
        while j < lines.len() && is_blank_line(&lines[j])
            invariant
                next <= j <= lines@.len(),
                l == chars_lines(lines@),
                skip_blank(l, next as int) == skip_blank(l, j as int),
            decreases lines@.len() - j,
        {
            assert(l[j as int] == lines@[j as int]@);
            j += 1;
        }
        proof {
            if j < lines@.len() {
                assert(l[j as int] == lines@[j as int]@);
            }
        }
        if j > next && j < lines.len() && is_task_line_at(&lines[j], 0) {
            proof {
                let rest = task_block(l, j as int);
                assert(task_block(l, i as int) == (mv + rest.0, rest.1));
                assert(tb + (mv + rest.0) =~= tasks_v(tasks@) + rest.0);
            }
            i = j;
        } else {
            proof {
                assert(task_block(l, i as int) == (mv, next as int));
            }
            return (tasks, next);
        }
    }
}

/// Where the header of a section that starts before line `k` ends: at the
/// first task line, heading, or other non-blank `## ` line from `k` on.
pub open spec fn header_end(lines: Seq<Seq<char>>, k: int) -> int
    decreases lines.len() - k,
{
    if k < 0 || k >= lines.len() || task_line_at_v(lines[k], 0) || heading_v(lines[k]) is Some
        || (!blank_v(lines[k]) && crate::text::starts_with(lines[k], "## "@)) {
        k
    } else {
        header_end(lines, k + 1)
    }
}

/// The nodes of a track read from line `i` on, with the lines from `lit`
/// on not yet placed in a node.
pub open spec fn track_nodes(lines: Seq<Seq<char>>, i: int, lit: int) -> Seq<NodeV>
    decreases lines.len() - i,
{
    if i < 0 || i >= lines.len() {
        if 0 <= lit < lines.len() {
            seq![NodeV::Literal(lines.subrange(lit, lines.len() as int))]
        } else {
            Seq::empty()
        }
    } else {
        match heading_v(lines[i]) {
            Some(kind) => {
                let pre: Seq<NodeV> = if 0 <= lit < i { seq![NodeV::Literal(lines.subrange(lit, i))] } else { Seq::empty() };
                let h = header_end(lines, i + 1);
                let (tasks, next) = task_block(lines, h);
                let sec = NodeV::Section { kind, header_lines: lines.subrange(i, h), tasks };
                if i < next <= lines.len() {
                    pre + seq![sec] + track_nodes(lines, next, next)
                } else {
                    pre + seq![sec]
                }
            },
            None => track_nodes(lines, i + 1, lit),
        }
    }
}

/// Read a track file.
pub fn parse_track(text: &str) -> (r: Track)
    ensures
        r@ == track_nodes(lines_v(text@), 0, 0),
{
    let (lines, _crlf) = split_lines(text);
    let ghost l = chars_lines(lines@);
    assert(l == lines_v(text@));
    let mut nodes: Vec<TrackNode> = Vec::new();
    let mut literal_start: usize = 0;
    let mut i: usize = 0;
    while i < lines.len()
        invariant
            literal_start <= i <= lines@.len(),
            l == chars_lines(lines@),
            track_nodes(l, 0, 0) == crate::model::nodes_v(nodes@) + track_nodes(l, i as int, literal_start as int),
        decreases lines@.len() - i,
    {
        assert(l[i as int] == lines@[i as int]@);
        let ghost nb = crate::model::nodes_v(nodes@);
        match heading_kind(&lines[i]) {
            Some(kind) => {
                let ghost lit0 = literal_start;
                let ghost pre: Seq<NodeV> = if literal_start < i { seq![NodeV::Literal(l.subrange(literal_start as int, i as int))] } else { Seq::empty() };
                if literal_start < i {
                    nodes.push(TrackNode::Literal(lines_to_strings(&lines, literal_start, i)));
                }
                assert(crate::model::nodes_v(nodes@) =~= nb + pre);
                let head_start = i;
                i += 1;
                while i < lines.len() && !is_task_line_at(&lines[i], 0) && heading_kind(&lines[i]).is_none()
                    && (is_blank_line(&lines[i]) || !crate::text::seq_starts_with(&lines[i], &chars_of("## ")))
                    invariant
                        head_start < i <= lines@.len(),
                        l == chars_lines(lines@),
                        header_end(l, head_start + 1) == header_end(l, i as int),
                    decreases lines@.len() - i,
                {
                    assert(l[i as int] == lines@[i as int]@);
                    i += 1;
                }
                proof {
                    if i < lines@.len() {
                        assert(l[i as int] == lines@[i as int]@);
                    }
                }
                assert(header_end(l, i as int) == i);
                let header = lines_to_strings(&lines, head_start, i);
                let (tasks, next) = parse_task_block(&lines, i);
                let ghost sec = NodeV::Section { kind, header_lines: l.subrange(head_start as int, i as int), tasks: tasks_v(tasks@) };
                let ghost nm = crate::model::nodes_v(nodes@);
                nodes.push(TrackNode::Section { kind, header_lines: header, tasks });
                assert(crate::model::nodes_v(nodes@) =~= nm.push(sec));
                i = next;
                literal_start = i;
                proof {
                    assert(track_nodes(l, head_start as int, lit0 as int) == pre + seq![sec] + track_nodes(l, next as int, next as int));
                    assert(nb + (pre + seq![sec] + track_nodes(l, next as int, next as int))
                        =~= crate::model::nodes_v(nodes@) + track_nodes(l, next as int, next as int));
                }
            },
            None => {
                i += 1;
            },
        }
    }
    let ghost nb = crate::model::nodes_v(nodes@);
    if literal_start < lines.len() {
        nodes.push(TrackNode::Literal(lines_to_strings(&lines, literal_start, lines.len())));
        assert(crate::model::nodes_v(nodes@) =~= nb.push(NodeV::Literal(l.subrange(literal_start as int, l.len() as int))));
    }
    assert(track_nodes(l, 0, 0) =~= crate::model::nodes_v(nodes@));
    Track { nodes }
}

/// Each line followed by `eol`.
pub open spec fn lines_text(lines: Seq<Seq<char>>, eol: Seq<char>) -> Seq<char>
    decreases lines.len(),
{
    if lines.len() == 0 {
        Seq::empty()
    } else {
        lines_text(lines.drop_last(), eol) + lines.last() + eol
    }
}

/// The text of one node of a track.
pub open spec fn node_text(n: NodeV) -> Seq<char> {
    match n {
        NodeV::Literal(l) => lines_text(l, "\n"@),
        NodeV::Section { header_lines, tasks, .. } =>
            lines_text(header_lines, "\n"@) + lines_text(tasks_lines_v(tasks, 0, 0), "\n"@),
    }
}

/// The text of a track file: each node in turn.
pub open spec fn track_text(nodes: Seq<NodeV>) -> Seq<char>
    decreases nodes.len(),
{
    if nodes.len() == 0 {
        Seq::empty()
    } else {
        track_text(nodes.drop_last()) + node_text(nodes.last())
    }
}

fn push_lines(out: &mut String, lines: &Vec<String>, eol: &str)
    ensures
        final(out)@ == old(out)@ + lines_text(strs_v(lines@), eol@),
{
    let ghost lv = strs_v(lines@);
    let mut i: usize = 0;
    while i < lines.len()
        invariant
            i <= lines@.len(),
            lv == strs_v(lines@),
            out@ == old(out)@ + lines_text(lv.take(i as int), eol@),
        decreases lines.len() - i,
    {
        assert(lv.take(i + 1).drop_last() =~= lv.take(i as int));
        assert(lv.take(i + 1).last() == lines@[i as int]@);
        push_str(out, lines[i].as_str());
        push_str(out, eol);
        i += 1;
    }
    assert(lv.take(i as int) =~= lv);
}

/// Write a track file.
pub fn serialize_track(track: &Track) -> (r: String)
    ensures
        r@ == track_text(track@),
{
    let mut out = String::new();
    let mut i: usize = 0;
    while i < track.nodes.len()
        invariant
            i <= track.nodes@.len(),
            out@ == track_text(track@.take(i as int)),
        decreases track.nodes.len() - i,
    {
        assert(track@.take(i + 1).drop_last() =~= track@.take(i as int));
        assert(track@.take(i + 1).last() == track@[i as int]);
        match &track.nodes[i] {
            TrackNode::Literal(lines) => push_lines(&mut out, lines, "\n"),
            TrackNode::Section { header_lines, tasks, .. } => {
                push_lines(&mut out, header_lines, "\n");
                let tl = serialize_tasks(tasks.as_slice(), 0);
                push_lines(&mut out, &tl, "\n");
            },
        }
        i += 1;
    }
    assert(track@.take(i as int) =~= track@);
    out
}

// ---------------------------------------------------------------------------
// Archives
// ---------------------------------------------------------------------------

/// The first top-level checkbox line from `k` on.
pub open spec fn first_task_line(lines: Seq<Seq<char>>, k: int) -> int
    decreases lines.len() - k,
{
    if k < 0 || k >= lines.len() || task_line_at_v(lines[k], 0) {
        k
    } else {
        first_task_line(lines, k + 1)
    }
}

/// The tasks of a done archive's text.
pub open spec fn archive_tasks(text: Seq<char>) -> Seq<TaskV> {
    let l = lines_v(text);
    task_block(l, first_task_line(l, 0)).0
}

/// The header lines of a done archive's text.
pub open spec fn archive_header(text: Seq<char>) -> Seq<Seq<char>> {
    let l = lines_v(text);
    l.take(first_task_line(l, 0))
}

/// The lines after the task list of a done archive's text.
pub open spec fn archive_trailing(text: Seq<char>) -> Seq<Seq<char>> {
    let l = lines_v(text);
    l.subrange(task_block(l, first_task_line(l, 0)).1, l.len() as int)
}

/// The header lines of an inbox text.
pub open spec fn inbox_header(text: Seq<char>) -> Seq<Seq<char>> {
    let l = lines_v(text);
    l.take(first_item_line(l, 0))
}

/// The items of an inbox text.
pub open spec fn inbox_items_of(text: Seq<char>) -> Seq<ItemV> {
    let l = lines_v(text);
    inbox_from(l, first_item_line(l, 0)).0
}

/// Read a done archive: a header, a flat task list, and whatever follows.
pub fn parse_archive(text: &str) -> (r: Archive)
    ensures
        ({
            let l = lines_v(text@);
            let start = first_task_line(l, 0);
            let (tasks, next) = task_block(l, start);
            &&& strs_v(r.header_lines@) == l.take(start)
            &&& tasks_v(r.tasks@) == tasks
            &&& strs_v(r.trailing_lines@) == l.subrange(next, l.len() as int)
            &&& r.crlf == crlf_v(text@)
        }),
{
    let (lines, crlf) = split_lines(text);
    let ghost l = chars_lines(lines@);
    let mut start: usize = 0;
    while start < lines.len() && !is_task_line_at(&lines[start], 0)
        invariant
            start <= lines@.len(),
            l == chars_lines(lines@),
            first_task_line(l, 0) == first_task_line(l, start as int),
        decreases lines@.len() - start,
    {
        assert(l[start as int] == lines@[start as int]@);
        start += 1;
    }
    proof {
        if start < lines@.len() {
            assert(l[start as int] == lines@[start as int]@);
        }
    }
    let header_lines = lines_to_strings(&lines, 0, start);
    assert(l.subrange(0, start as int) =~= l.take(start as int));
    let (tasks, next) = parse_task_block(&lines, start);
    let trailing_lines = lines_to_strings(&lines, next, lines.len());
    Archive { header_lines, tasks, trailing_lines, crlf }
}

/// The text of a done archive with line ending `eol`.
pub open spec fn archive_text(header: Seq<Seq<char>>, tasks: Seq<TaskV>, trailing: Seq<Seq<char>>, eol: Seq<char>) -> Seq<char> {
    lines_text(header, eol) + lines_text(tasks_lines_v(tasks, 0, 0), eol) + lines_text(trailing, eol)
}

/// Write a done archive, with the line ending it was read with.
pub fn serialize_archive(archive: &Archive) -> (r: String)
    ensures
        r@ == archive_text(strs_v(archive.header_lines@), tasks_v(archive.tasks@), strs_v(archive.trailing_lines@),
            if archive.crlf { "\r\n"@ } else { "\n"@ }),
{
    let eol = if archive.crlf { "\r\n" } else { "\n" };
    let mut out = String::new();
    push_lines(&mut out, &archive.header_lines, eol);
    let tl = serialize_tasks(archive.tasks.as_slice(), 0);
    push_lines(&mut out, &tl, eol);
    push_lines(&mut out, &archive.trailing_lines, eol);
    out
}

// ---------------------------------------------------------------------------
// Inbox
// ---------------------------------------------------------------------------

/// Whether a line opens an inbox item: `- ` at its start.
pub open spec fn item_line_v(l: Seq<char>) -> bool {
    l.len() >= 2 && l[0] == '-' && l[1] == ' '
}

/// Whether a line continues an item's body: two spaces at its start.
pub open spec fn body_line_of_item(l: Seq<char>) -> bool {
    l.len() >= 2 && l[0] == ' ' && l[1] == ' '
}

/// The first item line from `k` on.
pub open spec fn first_item_line(lines: Seq<Seq<char>>, k: int) -> int
    decreases lines.len() - k,
{
    if k < 0 || k >= lines.len() || item_line_v(lines[k]) {
        k
    } else {
        first_item_line(lines, k + 1)
    }
}

/// Where the body lines that start at `k` end.
pub open spec fn item_body_end(lines: Seq<Seq<char>>, k: int) -> int
    decreases lines.len() - k,
{
    if k < 0 || k >= lines.len() || !body_line_of_item(lines[k]) {
        k
    } else {
        item_body_end(lines, k + 1)
    }
}

/// The body of an item: its body lines without their two-space indent,
/// joined by newlines; none when it has no body line.
pub open spec fn item_body(lines: Seq<Seq<char>>, from: int, to: int) -> Option<Seq<char>> {
    if from < to {
        Some(join_v(lines.subrange(from, to).map_values(|x: Seq<char>| x.subrange(2, x.len() as int)), '\n'))
    } else {
        None
    }
}

/// The items read from line `i` on, and the non-blank lines that belong to
/// no item.
pub open spec fn inbox_from(lines: Seq<Seq<char>>, i: int) -> (Seq<ItemV>, Seq<Seq<char>>)
    decreases lines.len() - i,
{
    if i < 0 || i >= lines.len() {
        (Seq::empty(), Seq::empty())
    } else if item_line_v(lines[i]) {
        let head = lines[i].subrange(2, lines[i].len() as int);
        let e = item_body_end(lines, i + 1);
        let it = ItemV { title: title_v(head), tags: tags_v(head), body: item_body(lines, i + 1, e) };
        if i < e <= lines.len() {
            let (rest, stray) = inbox_from(lines, e);
            (seq![it] + rest, stray)
        } else {
            (seq![it], Seq::empty())
        }
    } else {
        let (rest, stray) = inbox_from(lines, i + 1);
        (rest, if blank_v(lines[i]) { stray } else { seq![lines[i]] + stray })
    }
}

fn is_item_line(line: &[char]) -> (r: bool)
    ensures
        r ==> line@.len() >= 2,
        r == item_line_v(line@),
{
    line.len() >= 2 && line[0] == '-' && line[1] == ' '
}

/// Read the inbox: its header and its items. The second value lists lines
/// that belong to no item.
pub fn parse_inbox(text: &str) -> (r: (Inbox, Vec<String>))
    ensures
        ({
            let l = lines_v(text@);
            let start = first_item_line(l, 0);
            &&& strs_v(r.0.header_lines@) == l.take(start)
            &&& crate::model::items_v(r.0.items@) == inbox_from(l, start).0
            &&& strs_v(r.1@) == inbox_from(l, start).1
        }),
{
    let (lines, _crlf) = split_lines(text);
    let ghost l = chars_lines(lines@);
    let mut start: usize = 0;
    while start < lines.len() && !is_item_line(&lines[start])
        invariant
            start <= lines@.len(),
            l == chars_lines(lines@),
            first_item_line(l, 0) == first_item_line(l, start as int),
        decreases lines@.len() - start,
    {
        assert(l[start as int] == lines@[start as int]@);
        start += 1;
    }
    proof {
        if start < lines@.len() {
            assert(l[start as int] == lines@[start as int]@);
        }
    }
    let header_lines = lines_to_strings(&lines, 0, start);
    assert(l.subrange(0, start as int) =~= l.take(start as int));
    let mut items: Vec<InboxItem> = Vec::new();
    let mut stray: Vec<String> = Vec::new();
    let mut i = start;
    while i < lines.len()
        invariant
            start <= i <= lines@.len(),
            l == chars_lines(lines@),
            inbox_from(l, start as int) == (crate::model::items_v(items@) + inbox_from(l, i as int).0,
                strs_v(stray@) + inbox_from(l, i as int).1),
        decreases lines@.len() - i,
    {
        let lref = &lines[i];
        assert(l[i as int] == lref@);
        let ghost ib = crate::model::items_v(items@);
        let ghost sb = strs_v(stray@);
        let ghost i_at = i;
        if is_item_line(lref) {
            let head = substring(lref, 2, lref.len());
            let (title, tags) = parse_title_and_tags(head.as_str());
            let mut item = InboxItem::new(title);
            item.tags = tags;
            item.dirty = false;
            i += 1;
            let ghost i0 = i;
            let ghost f = |x: Seq<char>| x.subrange(2, x.len() as int);
            let mut body = String::new();
            let mut has_body = false;
            while i < lines.len() && lines[i].len() >= 2 && lines[i][0] == ' ' && lines[i][1] == ' '
                invariant
                    start <= i0 <= i <= lines@.len(),
                    l == chars_lines(lines@),
                    f == (|x: Seq<char>| x.subrange(2, x.len() as int)),
                    item_body_end(l, i0 as int) == item_body_end(l, i as int),
                    has_body == (i0 < i),
                    has_body ==> body@ == join_v(l.subrange(i0 as int, i as int).map_values(f), '\n'),
                    !has_body ==> body@ == Seq::<char>::empty(),
                decreases lines@.len() - i,
            {
                assert(l[i as int] == lines@[i as int]@);
                let ghost pb = body@;
                if has_body {
                    body.push('\n');
                }
                let piece = substring(&lines[i], 2, lines[i].len());
                push_str(&mut body, piece.as_str());
                proof {
                    let ps = l.subrange(i0 as int, i + 1).map_values(f);
                    assert(ps.drop_last() =~= l.subrange(i0 as int, i as int).map_values(f));
                    assert(ps.last() == piece@);
                    if i0 < i {
                        assert(ps.len() >= 2);
                        assert(pb == join_v(ps.drop_last(), '\n'));
                        assert(join_v(ps, '\n') == join_v(ps.drop_last(), '\n') + seq!['\n'] + ps.last());
                        assert(body@ =~= pb + seq!['\n'] + piece@);
                    } else {
                        assert(ps.len() == 1);
                        assert(body@ =~= join_v(ps, '\n'));
                    }
                }
                has_body = true;
                i += 1;
            }
            proof {
                if i < lines@.len() {
                    assert(l[i as int] == lines@[i as int]@);
                }
            }
            assert(item_body_end(l, i0 as int) == i);
            if has_body {
                item.body = Some(body);
            }
            let ghost it = crate::model::item_v(item);
            assert(it == (ItemV { title: title_v(head@), tags: tags_v(head@), body: item_body(l, i0 as int, i as int) }));
            items.push(item);
            assert(crate::model::items_v(items@) =~= ib.push(it));
            proof {
                let rest = inbox_from(l, i as int);
                assert(inbox_from(l, i_at as int) == (seq![it] + rest.0, rest.1));
                assert(ib + (seq![it] + rest.0) =~= crate::model::items_v(items@) + rest.0);
            }
        } else {
            if !is_blank_line(lref) {
                let sl = string_of(lref);
                stray.push(sl);
                assert(strs_v(stray@) =~= sb.push(l[i as int]));
            }
            proof {
                let rest = inbox_from(l, i + 1);
                if !blank_v(l[i as int]) {
                    assert(sb + (seq![l[i as int]] + rest.1) =~= strs_v(stray@) + rest.1);
                }
            }
            i += 1;
        }
    }
    proof {
        assert(crate::model::items_v(items@) + Seq::<ItemV>::empty() =~= crate::model::items_v(items@));
        assert(strs_v(stray@) + Seq::<Seq<char>>::empty() =~= strs_v(stray@));
    }
    (Inbox { header_lines, items }, stray)
}

/// A note body from `i` on, each line that has text indented two spaces;
/// `at_start` tells whether `b[i]` starts a line.
pub open spec fn body_from(b: Seq<char>, i: int, at_start: bool) -> Seq<char>
    decreases b.len() - i,
{
    if i < 0 || i >= b.len() {
        Seq::empty()
    } else {
        (if at_start { "  "@ } else { Seq::empty() }) + seq![b[i]] + body_from(b, i + 1, b[i] == '\n')
    }
}

/// The text of one inbox item: `- title #tag`, then its body indented.
pub open spec fn item_text(it: ItemV) -> Seq<char> {
    "- "@ + it.title + tags_text(it.tags) + "\n"@ + match it.body {
        Some(b) => body_from(b, 0, true) + "\n"@,
        None => Seq::empty(),
    }
}

/// The text of the inbox items, in order.
pub open spec fn items_text(items: Seq<ItemV>) -> Seq<char>
    decreases items.len(),
{
    if items.len() == 0 {
        Seq::empty()
    } else {
        items_text(items.drop_last()) + item_text(items.last())
    }
}

/// Write the inbox.
pub fn serialize_inbox(inbox: &Inbox) -> (r: String)
    ensures
        r@ == lines_text(strs_v(inbox.header_lines@), "\n"@) + items_text(crate::model::items_v(inbox.items@)),
{
    let ghost iv = crate::model::items_v(inbox.items@);
    let mut out = String::new();
    push_lines(&mut out, &inbox.header_lines, "\n");
    let ghost head = out@;
    let mut i: usize = 0;
    while i < inbox.items.len()
        invariant
            i <= inbox.items@.len(),
            iv == crate::model::items_v(inbox.items@),
            out@ == head + items_text(iv.take(i as int)),
        decreases inbox.items.len() - i,
    {
        assert(iv.take(i + 1).drop_last() =~= iv.take(i as int));
        assert(iv.take(i + 1).last() == iv[i as int]);
        let item = &inbox.items[i];
        let ghost it = iv[i as int];
        let ghost o0 = out@;
        push_str(&mut out, "- ");
        push_str(&mut out, item.title.as_str());
        let ghost o1 = out@;
        let ghost tv = strs_v(item.tags@);
        let mut k: usize = 0;
        while k < item.tags.len()
            invariant
                k <= item.tags@.len(),
                tv == strs_v(item.tags@),
                out@ == o1 + tags_text(tv.take(k as int)),
            decreases item.tags.len() - k,
        {
            assert(tv.take(k + 1).drop_last() =~= tv.take(k as int));
            assert(tv.take(k + 1).last() == item.tags@[k as int]@);
            push_str(&mut out, " #");
            push_str(&mut out, item.tags[k].as_str());
            k += 1;
        }
        assert(tv.take(k as int) =~= tv);
        push_str(&mut out, "\n");
        match &item.body {
            Some(b) => {
                let cs = chars_of(b.as_str());
                let ghost o2 = out@;
                let mut j: usize = 0;
                let mut at_line_start = true;
                while j < cs.len()
                    invariant
                        j <= cs@.len(),
                        out@ + body_from(cs@, j as int, at_line_start) == o2 + body_from(cs@, 0, true),
                    decreases cs.len() - j,
                {
                    let ghost ob = out@;
                    let ghost st = at_line_start;
                    if at_line_start {
                        push_str(&mut out, "  ");
                        at_line_start = false;
                    }
                    out.push(cs[j]);
                    if cs[j] == '\n' {
                        at_line_start = true;
                    }
                    assert(out@ =~= ob + (if st { "  "@ } else { Seq::<char>::empty() }) + seq![cs@[j as int]]);
                    j += 1;
                }
                assert(out@ =~= o2 + body_from(cs@, 0, true));
                push_str(&mut out, "\n");
            },
            None => {},
        }
        assert(out@ =~= o0 + item_text(it));
        i += 1;
    }
    assert(iv.take(i as int) =~= iv);
    out
}

} // verus!
