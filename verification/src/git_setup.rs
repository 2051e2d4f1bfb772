//! What `fr git setup` plans for a clone: the `.gitignore` pattern covering
//! working-copy-local files, the `.gitattributes` lines routing frame
//! markdown to the merge driver, and the report of what each step did. The
//! file and `git config` work itself is the caller's.

use vstd::prelude::*;
use crate::model::strs_v;
use crate::parse::{lines_v, split_lines};
use crate::refs::{join_v, split_v};
use crate::text::{chars_of, push_str, str_eq, string_of, trim_chars, trim_v, is_ws};

verus! {

// ---------------------------------------------------------------------------
// Names and patterns
// ---------------------------------------------------------------------------

/// The files directly inside the frame directory that belong to one working
/// copy and are never committed.
pub open spec fn local_only_files() -> Seq<Seq<char>> {
    seq![".state.json"@, ".lock"@, ".recovery.log"@, ".actor"@, ".rescue"@]
}

/// The files directly inside the frame directory that belong to one working
/// copy and are never committed.
pub fn local_only_frame_files() -> (r: Vec<String>)
    ensures
        strs_v(r@) == local_only_files(),
{
    let mut v: Vec<String> = Vec::new();
    v.push(String::from_str(".state.json"));
    v.push(String::from_str(".lock"));
    v.push(String::from_str(".recovery.log"));
    v.push(String::from_str(".actor"));
    v.push(String::from_str(".rescue"));
    assert(strs_v(v@) =~= local_only_files());
    v
}

/// `s` without its trailing slashes.
pub open spec fn trim_end_slashes(s: Seq<char>) -> Seq<char>
    decreases s.len(),
{
    if s.len() > 0 && s.last() == '/' {
        trim_end_slashes(s.drop_last())
    } else {
        s
    }
}

fn trim_end_slashes_exec(s: &str) -> (r: String)
    ensures
        r@ == trim_end_slashes(s@),
{
    let cs = chars_of(s);
    let mut n = cs.len();
    assert(cs@.subrange(0, n as int) =~= cs@);
    while n > 0 && cs[n - 1] == '/'
        invariant
            n <= cs@.len(),
            trim_end_slashes(cs@) == trim_end_slashes(cs@.subrange(0, n as int)),
        decreases n,
    {
        assert(cs@.subrange(0, n as int).drop_last() =~= cs@.subrange(0, n - 1));
        n -= 1;
    }
    crate::text::substring(&cs, 0, n)
}

/// The blanket `.gitignore` pattern for the frame directory at `frame_rel`.
pub open spec fn gitignore_pattern_v(frame_rel: Seq<char>) -> Seq<char> {
    trim_end_slashes(frame_rel) + "/.*"@
}

pub fn gitignore_pattern_for(frame_rel: &str) -> (r: String)
    ensures
        r@ == gitignore_pattern_v(frame_rel@),
{
    let mut s = trim_end_slashes_exec(frame_rel);
    push_str(&mut s, "/.*");
    s
}

/// One `.gitattributes` line per frame file shape that routes to the driver.
pub open spec fn attribute_lines_v(frame_rel: Seq<char>) -> Seq<Seq<char>> {
    let f = trim_end_slashes(frame_rel);
    seq![
        f + "/tracks/*.md merge=frame"@,
        f + "/archive/*.md merge=frame"@,
        f + "/archive/_tracks/*.md merge=frame"@,
        f + "/inbox.md merge=frame"@,
    ]
}

fn prefixed(f: &str, rest: &str) -> (r: String)
    ensures
        r@ == f@ + rest@,
{
    let mut s = String::from_str(f);
    push_str(&mut s, rest);
    s
}

/// One line per frame file shape that must route to the merge driver.
pub fn attribute_lines(frame_rel: &str) -> (r: Vec<String>)
    ensures
        strs_v(r@) == attribute_lines_v(frame_rel@),
{
    let f = trim_end_slashes_exec(frame_rel);
    let mut v: Vec<String> = Vec::new();
    v.push(prefixed(f.as_str(), "/tracks/*.md merge=frame"));
    v.push(prefixed(f.as_str(), "/archive/*.md merge=frame"));
    v.push(prefixed(f.as_str(), "/archive/_tracks/*.md merge=frame"));
    v.push(prefixed(f.as_str(), "/inbox.md merge=frame"));
    assert(strs_v(v@) =~= attribute_lines_v(frame_rel@));
    v
}

// ---------------------------------------------------------------------------
// Words
// ---------------------------------------------------------------------------

/// The index of the first whitespace character at or after `i`, or the end.
pub open spec fn word_end(s: Seq<char>, i: int) -> int
    decreases s.len() - i,
{
    if i < 0 || i >= s.len() || is_ws(s[i]) {
        i
    } else {
        word_end(s, i + 1)
    }
}

/// The index of the first non-whitespace character at or after `i`, or the
/// end.
pub open spec fn word_start(s: Seq<char>, i: int) -> int
    decreases s.len() - i,
{
    if i < 0 || i >= s.len() || !is_ws(s[i]) {
        i
    } else {
        word_start(s, i + 1)
    }
}

/// The first whitespace-separated word of `s`, if any.
pub open spec fn first_word_v(s: Seq<char>) -> Option<Seq<char>> {
    let a = word_start(s, 0);
    if a >= s.len() {
        None
    } else {
        Some(s.subrange(a, word_end(s, a)))
    }
}

proof fn lemma_word_bounds(s: Seq<char>, i: int)
    requires
        0 <= i <= s.len(),
    ensures
        i <= word_start(s, i) <= s.len(),
        i <= word_end(s, i) <= s.len(),
    decreases s.len() - i,
{
    if i < s.len() {
        lemma_word_bounds(s, i + 1);
    }
}

fn first_word(s: &str) -> (r: Option<String>)
    ensures
        match first_word_v(s@) {
            Some(w) => r matches Some(x) && x@ == w,
            None => r is None,
        },
{
    let cs = chars_of(s);
    proof { lemma_word_bounds(cs@, 0); }
    let mut a: usize = 0;
    while a < cs.len() && (cs[a] == ' ' || cs[a] == '\t' || cs[a] == '\n' || cs[a] == '\r')
        invariant
            a <= cs@.len(),
            word_start(cs@, 0) == word_start(cs@, a as int),
        decreases cs.len() - a,
    {
        a += 1;
    }
    if a >= cs.len() {
        return None;
    }
    proof { lemma_word_bounds(cs@, a as int); }
    let mut b: usize = a;
    while b < cs.len() && !(cs[b] == ' ' || cs[b] == '\t' || cs[b] == '\n' || cs[b] == '\r')
        invariant
            a <= b <= cs@.len(),
            word_end(cs@, a as int) == word_end(cs@, b as int),
        decreases cs.len() - b,
    {
        b += 1;
    }
    Some(crate::text::substring(&cs, a, b))
}

/// `s` with every `c` replaced by `w`.
pub open spec fn replace_char_v(s: Seq<char>, c: char, w: Seq<char>) -> Seq<char>
    decreases s.len(),
{
    if s.len() == 0 {
        Seq::empty()
    } else {
        replace_char_v(s.drop_last(), c, w) + if s.last() == c { w } else { seq![s.last()] }
    }
}

pub(crate) fn replace_char(s: &str, c: char, w: &str) -> (r: String)
    ensures
        r@ == replace_char_v(s@, c, w@),
{
    let cs = chars_of(s);
    let mut out = String::new();
    let mut i: usize = 0;
    while i < cs.len()
        invariant
            i <= cs@.len(),
            out@ == replace_char_v(cs@.take(i as int), c, w@),
        decreases cs.len() - i,
    {
        assert(cs@.take(i + 1).drop_last() =~= cs@.take(i as int));
        if cs[i] == c {
            push_str(&mut out, w);
        } else {
            out.push(cs[i]);
        }
        i += 1;
    }
    assert(cs@.take(cs@.len() as int) =~= cs@);
    out
}

/// The paths of the routed shapes, one representative each: the pattern of
/// each attribute line with `*` read as `sample`.
pub open spec fn routed_paths_v() -> Seq<Seq<char>> {
    attribute_lines_v("frame"@).map_values(
        |l: Seq<char>| match first_word_v(l) {
            Some(p) => replace_char_v(p, '*', "sample"@),
            None => Seq::empty(),
        },
    )
}

/// One representative path per routed shape, relative to the project root.
pub fn routed_paths() -> (r: Vec<String>)
    ensures
        strs_v(r@) == routed_paths_v(),
{
    let lines = attribute_lines("frame");
    let mut out: Vec<String> = Vec::new();
    let mut i: usize = 0;
    while i < lines.len()
        invariant
            i <= lines@.len(),
            strs_v(lines@) == attribute_lines_v("frame"@),
            strs_v(out@) == routed_paths_v().take(i as int),
        decreases lines.len() - i,
    {
        let ghost before = strs_v(out@);
        assert(strs_v(lines@)[i as int] == lines@[i as int]@);
        assert(routed_paths_v()[i as int] == match first_word_v(lines@[i as int]@) {
            Some(p) => replace_char_v(p, '*', "sample"@),
            None => Seq::<char>::empty(),
        });
        match first_word(lines[i].as_str()) {
            Some(p) => {
                out.push(replace_char(p.as_str(), '*', "sample"));
            },
            None => {
                out.push(String::new());
            },
        }
        assert(strs_v(out@) =~= before.push(routed_paths_v()[i as int]));
        assert(strs_v(out@) =~= routed_paths_v().take(i + 1));
        i += 1;
    }
    assert(routed_paths_v().take(4) =~= routed_paths_v());
    out
}


// ---------------------------------------------------------------------------
// Reporting
// ---------------------------------------------------------------------------

/// What one setup step did.
#[derive(Debug, PartialEq, Eq)]
pub enum StepStatus {
    /// Already correct; nothing written.
    AlreadyCorrect,
    Changed,
    /// Could not be done, with the reason.
    Failed(String),
}

/// One setup step and its outcome.
#[derive(Debug)]
pub struct Step {
    pub name: &'static str,
    pub status: StepStatus,
    /// Specifics worth showing: the lines added, the entries collapsed.
    pub detail: Vec<String>,
}

impl Step {
    pub fn already(name: &'static str) -> (r: Step)
        ensures
            r.name == name,
            r.status is AlreadyCorrect,
            r.detail@.len() == 0,
    {
        Step { name, status: StepStatus::AlreadyCorrect, detail: Vec::new() }
    }

    pub fn changed(name: &'static str, detail: Vec<String>) -> (r: Step)
        ensures
            r.name == name,
            r.status is Changed,
            r.detail == detail,
    {
        Step { name, status: StepStatus::Changed, detail }
    }

    pub fn failed(name: &'static str, why: String) -> (r: Step)
        ensures
            r.name == name,
            r.status == StepStatus::Failed(why),
            r.detail@.len() == 0,
    {
        Step { name, status: StepStatus::Failed(why), detail: Vec::new() }
    }

    /// Whether the step wrote (or, in a dry run, would write) something.
    pub fn changed_anything(&self) -> (r: bool)
        ensures
            r == (self.status is Changed),
    {
        match self.status {
            StepStatus::Changed => true,
            _ => false,
        }
    }
}

/// What a setup run did.
#[derive(Debug)]
pub struct SetupReport {
    pub steps: Vec<Step>,
    /// `false` when the project is not in a git repo; `steps` is then empty.
    pub in_git: bool,
    /// Set when `fr` is not resolvable on `PATH`.
    pub fr_not_on_path: bool,
}

impl SetupReport {
    /// Whether any step changed something.
    pub fn changed_anything(&self) -> (r: bool)
        ensures
            r == exists|k: int| 0 <= k < self.steps@.len() && (#[trigger] self.steps@[k]).status is Changed,
    {
        let mut i: usize = 0;
        while i < self.steps.len()
            invariant
                i <= self.steps@.len(),
                forall|k: int| 0 <= k < i ==> !((#[trigger] self.steps@[k]).status is Changed),
            decreases self.steps.len() - i,
        {
            if self.steps[i].changed_anything() {
                return true;
            }
            i += 1;
        }
        false
    }

    /// Whether any step failed.
    pub fn failed(&self) -> (r: bool)
        ensures
            r == exists|k: int| 0 <= k < self.steps@.len() && (#[trigger] self.steps@[k]).status is Failed,
    {
        let mut i: usize = 0;
        while i < self.steps.len()
            invariant
                i <= self.steps@.len(),
                forall|k: int| 0 <= k < i ==> !((#[trigger] self.steps@[k]).status is Failed),
            decreases self.steps.len() - i,
        {
            match self.steps[i].status {
                StepStatus::Failed(_) => {
                    return true;
                },
                _ => {},
            }
            i += 1;
        }
        false
    }
}

// ---------------------------------------------------------------------------
// .gitignore
// ---------------------------------------------------------------------------

/// Whether a trimmed `.gitignore` line is one the blanket pattern replaces:
/// a per-file entry for a local-only file in any of its four spellings
/// (with or without a leading and a trailing slash), or the dead pattern an
/// older setup wrote at `stale`.
pub open spec fn is_legacy_entry(e: Seq<char>, frame_rel: Seq<char>, stale: Option<Seq<char>>) -> bool {
    let f = trim_end_slashes(frame_rel);
    ||| exists|k: int| 0 <= k < local_only_files().len() && {
        let base = f + "/"@ + #[trigger] local_only_files()[k];
        e == base || e == base + "/"@ || e == "/"@ + base || e == "/"@ + base + "/"@
    }
    ||| stale matches Some(st) && e == gitignore_pattern_v(st)
}

/// The lines kept and the pattern placed, walking `ls` in order: the first
/// legacy line becomes the pattern (unless it is already there), the others
/// go. Also whether the pattern is in place.
pub open spec fn gi_walk(ls: Seq<Seq<char>>, frame_rel: Seq<char>, stale: Option<Seq<char>>, has: bool) -> (
    Seq<Seq<char>>,
    bool,
)
    decreases ls.len(),
{
    if ls.len() == 0 {
        (Seq::empty(), has)
    } else {
        let prev = gi_walk(ls.drop_last(), frame_rel, stale, has);
        if is_legacy_entry(trim_v(ls.last()), frame_rel, stale) {
            if prev.1 {
                prev
            } else {
                (prev.0.push(gitignore_pattern_v(frame_rel)), true)
            }
        } else {
            (prev.0.push(ls.last()), prev.1)
        }
    }
}

/// The trimmed legacy lines of `ls`, in order.
pub open spec fn gi_removed(ls: Seq<Seq<char>>, frame_rel: Seq<char>, stale: Option<Seq<char>>) -> Seq<Seq<char>>
    decreases ls.len(),
{
    if ls.len() == 0 {
        Seq::empty()
    } else {
        let prev = gi_removed(ls.drop_last(), frame_rel, stale);
        if is_legacy_entry(trim_v(ls.last()), frame_rel, stale) {
            prev.push(trim_v(ls.last()))
        } else {
            prev
        }
    }
}

pub open spec fn gi_comment() -> Seq<char> {
    "# frame \u{2014} working-copy-local files (never commit these)"@
}

/// The `.gitignore` a project should have given what it has now, with the
/// legacy lines it removes; `None` when it is already right (the pattern is
/// there and no legacy line is). The pattern takes the place of the first
/// legacy line; with none, it is appended under its comment, after a blank
/// line when the file does not already end in one.
pub open spec fn planned_gitignore_v(existing: Seq<char>, frame_rel: Seq<char>, stale: Option<Seq<char>>) -> Option<
    (Seq<char>, Seq<Seq<char>>),
> {
    let ls = lines_v(existing);
    let pattern = gitignore_pattern_v(frame_rel);
    let has = exists|k: int| 0 <= k < ls.len() && trim_v(#[trigger] ls[k]) == pattern;
    let removed = gi_removed(ls, frame_rel, stale);
    if has && removed.len() == 0 {
        None
    } else {
        let (walked, inserted) = gi_walk(ls, frame_rel, stale, has);
        let out = if inserted {
            walked
        } else {
            let spaced = if walked.len() > 0 && trim_v(walked.last()).len() != 0 {
                walked.push(Seq::empty())
            } else {
                walked
            };
            spaced.push(gi_comment()).push(pattern)
        };
        Some((join_v(out, '\n') + seq!['\n'], removed))
    }
}

fn is_legacy_exec(e: &str, frame_rel: &str, stale: Option<&str>) -> (r: bool)
    ensures
        r == is_legacy_entry(e@, frame_rel@, match stale {
            Some(s) => Some(s@),
            None => None,
        }),
{
    let f = trim_end_slashes_exec(frame_rel);
    let files = local_only_frame_files();
    let mut i: usize = 0;
    while i < files.len()
        invariant
            i <= files@.len(),
            strs_v(files@) == local_only_files(),
            f@ == trim_end_slashes(frame_rel@),
            forall|k: int| 0 <= k < i ==> {
                let base = f@ + "/"@ + #[trigger] local_only_files()[k];
                !(e@ == base || e@ == base + "/"@ || e@ == "/"@ + base || e@ == "/"@ + base + "/"@)
            },
        decreases files.len() - i,
    {
        let mut base = f.clone();
        push_str(&mut base, "/");
        push_str(&mut base, files[i].as_str());
        let mut with_tail = base.clone();
        push_str(&mut with_tail, "/");
        let mut with_head = String::from_str("/");
        push_str(&mut with_head, base.as_str());
        let mut with_both = with_head.clone();
        push_str(&mut with_both, "/");
        assert(strs_v(files@)[i as int] == files@[i as int]@);
        assert(with_head@ == "/"@ + base@);
        if str_eq(e, base.as_str()) || str_eq(e, with_tail.as_str()) || str_eq(e, with_head.as_str())
            || str_eq(e, with_both.as_str()) {
            return true;
        }
        i += 1;
    }
    match stale {
        Some(st) => {
            let p = gitignore_pattern_for(st);
            str_eq(e, p.as_str())
        },
        None => false,
    }
}

fn lines_of(text: &str) -> (r: Vec<String>)
    ensures
        strs_v(r@) == lines_v(text@),
{
    let (ls, _) = split_lines(text);
    let mut out: Vec<String> = Vec::new();
    let mut i: usize = 0;
    while i < ls.len()
        invariant
            i <= ls@.len(),
            ls@.map_values(|x: Vec<char>| x@) == lines_v(text@),
            strs_v(out@) == lines_v(text@).take(i as int),
        decreases ls.len() - i,
    {
        assert(ls@.map_values(|x: Vec<char>| x@)[i as int] == ls@[i as int]@);
        let s = string_of(ls[i].as_slice());
        let ghost before = strs_v(out@);
        out.push(s);
        assert(strs_v(out@) =~= before.push(lines_v(text@)[i as int]));
        assert(strs_v(out@) =~= lines_v(text@).take(i + 1));
        i += 1;
    }
    assert(lines_v(text@).take(ls@.len() as int) =~= lines_v(text@));
    out
}

fn trimmed(s: &str) -> (r: String)
    ensures
        r@ == trim_v(s@),
{
    let cs = chars_of(s);
    let t = trim_chars(cs.as_slice());
    string_of(t.as_slice())
}

pub(crate) fn join_lines(v: &Vec<String>) -> (r: String)
    ensures
        r@ == join_v(strs_v(v@), '\n') + seq!['\n'],
{
    let ghost sv = strs_v(v@);
    let mut out = String::new();
    let mut i: usize = 0;
    while i < v.len()
        invariant
            i <= v@.len(),
            sv == strs_v(v@),
            out@ == join_v(sv.take(i as int), '\n'),
        decreases v.len() - i,
    {
        assert(sv.take(i + 1).drop_last() =~= sv.take(i as int));
        if i > 0 {
            out.push('\n');
        }
        push_str(&mut out, v[i].as_str());
        proof {
            if i == 0 {
                assert(sv.take(1) =~= seq![sv[0]]);
                assert(out@ =~= sv[0]);
            } else {
                assert(out@ =~= join_v(sv.take(i as int), '\n') + seq!['\n'] + sv[i as int]);
            }
        }
        i += 1;
    }
    assert(sv.take(v@.len() as int) =~= sv);
    out.push('\n');
    out
}

pub open spec fn opt_ref_str(o: Option<&str>) -> Option<Seq<char>> {
    match o {
        Some(s) => Some(s@),
        None => None,
    }
}

/// The `.gitignore` a project should have given what it has now (see
/// [`planned_gitignore_v`]), with the legacy lines it removes; `None` when
/// the file is already right.
pub fn planned_gitignore(existing: &str, frame_rel: &str, stale_prefix: Option<&str>) -> (r: Option<(String, Vec<String>)>)
    ensures
        match planned_gitignore_v(existing@, frame_rel@, opt_ref_str(stale_prefix)) {
            Some(p) => r matches Some(x) && x.0@ == p.0 && strs_v(x.1@) == p.1,
            None => r is None,
        },
{
    let ghost st = opt_ref_str(stale_prefix);
    let pattern = gitignore_pattern_for(frame_rel);
    let ls = lines_of(existing);
    let ghost lv = lines_v(existing@);
    let mut has = false;
    let mut removed: Vec<String> = Vec::new();
    let mut i: usize = 0;
    while i < ls.len()
        invariant
            i <= ls@.len(),
            strs_v(ls@) == lv,
            pattern@ == gitignore_pattern_v(frame_rel@),
            st == opt_ref_str(stale_prefix),
            has == exists|k: int| 0 <= k < i && trim_v(#[trigger] lv[k]) == pattern@,
            strs_v(removed@) == gi_removed(lv.take(i as int), frame_rel@, st),
        decreases ls.len() - i,
    {
        assert(lv[i as int] == ls@[i as int]@);
        assert(lv.take(i + 1).drop_last() =~= lv.take(i as int));
        let t = trimmed(ls[i].as_str());
        if str_eq(t.as_str(), pattern.as_str()) {
            has = true;
        }
        if is_legacy_exec(t.as_str(), frame_rel, stale_prefix) {
            let ghost before = strs_v(removed@);
            removed.push(t);
            assert(strs_v(removed@) =~= before.push(trim_v(lv[i as int])));
        }
        i += 1;
    }
    assert(lv.take(lv.len() as int) =~= lv);
    if has && removed.len() == 0 {
        return None;
    }
    let ghost has0 = has;
    let mut out: Vec<String> = Vec::new();
    let mut inserted = has;
    let mut j: usize = 0;
    while j < ls.len()
        invariant
            j <= ls@.len(),
            strs_v(ls@) == lv,
            pattern@ == gitignore_pattern_v(frame_rel@),
            st == opt_ref_str(stale_prefix),
            (strs_v(out@), inserted) == gi_walk(lv.take(j as int), frame_rel@, st, has0),
        decreases ls.len() - j,
    {
        assert(lv[j as int] == ls@[j as int]@);
        assert(lv.take(j + 1).drop_last() =~= lv.take(j as int));
        let t = trimmed(ls[j].as_str());
        let ghost before = strs_v(out@);
        if is_legacy_exec(t.as_str(), frame_rel, stale_prefix) {
            if !inserted {
                out.push(pattern.clone());
                inserted = true;
                assert(strs_v(out@) =~= before.push(pattern@));
            }
        } else {
            out.push(ls[j].clone());
            assert(strs_v(out@) =~= before.push(lv[j as int]));
        }
        j += 1;
    }
    assert(lv.take(lv.len() as int) =~= lv);
    if !inserted {
        let spaced = out.len() > 0 && {
            let tc = chars_of(out[out.len() - 1].as_str());
            let t = trim_chars(tc.as_slice());
            t.len() != 0
        };
        let ghost before = strs_v(out@);
        if spaced {
            out.push(String::new());
            assert(strs_v(out@) =~= before.push(Seq::empty()));
        }
        let ghost before2 = strs_v(out@);
        out.push(String::from_str("# frame \u{2014} working-copy-local files (never commit these)"));
        out.push(pattern.clone());
        assert(strs_v(out@) =~= before2.push(gi_comment()).push(pattern@));
    }
    let text = join_lines(&out);
    Some((text, removed))
}


// ---------------------------------------------------------------------------
// .gitattributes
// ---------------------------------------------------------------------------

/// A file rewrite that is worth doing, and what it changes.
#[derive(Debug)]
pub struct Planned {
    pub content: String,
    pub added: Vec<String>,
    pub removed: Vec<String>,
}

/// The lines of `ls` whose trimmed form is not in `dead`, in order.
pub open spec fn ga_kept(ls: Seq<Seq<char>>, dead: Seq<Seq<char>>) -> Seq<Seq<char>>
    decreases ls.len(),
{
    if ls.len() == 0 {
        Seq::empty()
    } else {
        let prev = ga_kept(ls.drop_last(), dead);
        if dead.contains(trim_v(ls.last())) {
            prev
        } else {
            prev.push(ls.last())
        }
    }
}

/// The trimmed lines of `ls` that are in `dead`, in order.
pub open spec fn ga_removed(ls: Seq<Seq<char>>, dead: Seq<Seq<char>>) -> Seq<Seq<char>>
    decreases ls.len(),
{
    if ls.len() == 0 {
        Seq::empty()
    } else {
        let prev = ga_removed(ls.drop_last(), dead);
        if dead.contains(trim_v(ls.last())) {
            prev.push(trim_v(ls.last()))
        } else {
            prev
        }
    }
}

/// The first word of a line, or nothing.
pub open spec fn pattern_of(line: Seq<char>) -> Seq<char> {
    match first_word_v(line) {
        Some(w) => w,
        None => Seq::empty(),
    }
}

/// Whether some line of `kept` starts with the word `pattern`.
pub open spec fn mentioned(kept: Seq<Seq<char>>, pattern: Seq<char>) -> bool {
    exists|k: int| 0 <= k < kept.len() && first_word_v(#[trigger] kept[k]) == Some(pattern)
}

/// The lines of `wanted` whose pattern no line of `kept` mentions, in order.
pub open spec fn ga_added(wanted: Seq<Seq<char>>, kept: Seq<Seq<char>>) -> Seq<Seq<char>>
    decreases wanted.len(),
{
    if wanted.len() == 0 {
        Seq::empty()
    } else {
        let prev = ga_added(wanted.drop_last(), kept);
        if mentioned(kept, pattern_of(wanted.last())) {
            prev
        } else {
            prev.push(wanted.last())
        }
    }
}

/// `c` with each line of `added` appended, each ending in a newline.
pub open spec fn append_lines(c: Seq<char>, added: Seq<Seq<char>>) -> Seq<char>
    decreases added.len(),
{
    if added.len() == 0 {
        c
    } else {
        append_lines(c, added.drop_last()) + added.last() + seq!['\n']
    }
}

pub open spec fn ga_comment() -> Seq<char> {
    "# frame \u{2014} merge track and inbox files by task identity"@
}

/// The `.gitattributes` a project should have, or `None` when it is already
/// right. The lines an older setup wrote at `stale` are removed; each routing
/// line whose pattern no remaining line mentions (with any driver) is
/// appended; other lines are left as they are.
pub open spec fn planned_gitattributes_v(existing: Seq<char>, frame_rel: Seq<char>, stale: Option<Seq<char>>) -> Option<
    (Seq<char>, Seq<Seq<char>>, Seq<Seq<char>>),
> {
    let dead = match stale {
        Some(st) => attribute_lines_v(st),
        None => Seq::empty(),
    };
    let ls = lines_v(existing);
    let kept = ga_kept(ls, dead);
    let removed = ga_removed(ls, dead);
    let added = ga_added(attribute_lines_v(frame_rel), kept);
    if added.len() == 0 && removed.len() == 0 {
        None
    } else {
        let base = if removed.len() == 0 {
            existing
        } else {
            let t = join_v(kept, '\n');
            if t.len() > 0 { t + seq!['\n'] } else { t }
        };
        let c1 = if base.len() > 0 && base.last() != '\n' { base + seq!['\n'] } else { base };
        let c2 = if c1.len() == 0 && added.len() > 0 { c1 + ga_comment() + seq!['\n'] } else { c1 };
        Some((append_lines(c2, added), added, removed))
    }
}

fn contains_str(v: &Vec<String>, x: &str) -> (r: bool)
    ensures
        r == strs_v(v@).contains(x@),
{
    let mut i: usize = 0;
    while i < v.len()
        invariant
            i <= v@.len(),
            forall|k: int| 0 <= k < i ==> strs_v(v@)[k] != x@,
        decreases v.len() - i,
    {
        if str_eq(v[i].as_str(), x) {
            assert(strs_v(v@)[i as int] == x@);
            return true;
        }
        i += 1;
    }
    false
}

fn is_mentioned(kept: &Vec<String>, pattern: &str) -> (r: bool)
    ensures
        r == mentioned(strs_v(kept@), pattern@),
{
    let mut i: usize = 0;
    while i < kept.len()
        invariant
            i <= kept@.len(),
            forall|k: int| 0 <= k < i ==> first_word_v(#[trigger] strs_v(kept@)[k]) != Some(pattern@),
        decreases kept.len() - i,
    {
        assert(strs_v(kept@)[i as int] == kept@[i as int]@);
        match first_word(kept[i].as_str()) {
            Some(w) => {
                if str_eq(w.as_str(), pattern) {
                    return true;
                }
            },
            None => {},
        }
        i += 1;
    }
    false
}

fn join_nonempty(v: &Vec<String>) -> (r: String)
    ensures
        r@ == {
            let t = join_v(strs_v(v@), '\n');
            if t.len() > 0 { t + seq!['\n'] } else { t }
        },
{
    if v.len() == 0 {
        assert(strs_v(v@) =~= Seq::empty());
        return String::new();
    }
    let s = join_lines(v);
    let cs = chars_of(s.as_str());
    if cs.len() == 1 {
        assert(join_v(strs_v(v@), '\n').len() == 0);
        assert(join_v(strs_v(v@), '\n') =~= Seq::<char>::empty());
        return String::new();
    }
    s
}

/// The `.gitattributes` a project should have (see
/// [`planned_gitattributes_v`]), or `None` when it is already right.
pub fn planned_gitattributes(existing: &str, frame_rel: &str, stale_prefix: Option<&str>) -> (r: Option<Planned>)
    ensures
        match planned_gitattributes_v(existing@, frame_rel@, opt_ref_str(stale_prefix)) {
            Some(p) => r matches Some(x) && x.content@ == p.0 && strs_v(x.added@) == p.1 && strs_v(x.removed@) == p.2,
            None => r is None,
        },
{
    let dead: Vec<String> = match stale_prefix {
        Some(st) => attribute_lines(st),
        None => Vec::new(),
    };
    let ghost dv = strs_v(dead@);
    assert(dv == match opt_ref_str(stale_prefix) {
        Some(st) => attribute_lines_v(st),
        None => Seq::<Seq<char>>::empty(),
    }) by {
        if stale_prefix is None {
            assert(dv =~= Seq::<Seq<char>>::empty());
        }
    }
    let ls = lines_of(existing);
    let ghost lv = lines_v(existing@);
    let mut kept: Vec<String> = Vec::new();
    let mut removed: Vec<String> = Vec::new();
    let mut i: usize = 0;
    while i < ls.len()
        invariant
            i <= ls@.len(),
            strs_v(ls@) == lv,
            dv == strs_v(dead@),
            strs_v(kept@) == ga_kept(lv.take(i as int), dv),
            strs_v(removed@) == ga_removed(lv.take(i as int), dv),
        decreases ls.len() - i,
    {
        assert(lv[i as int] == ls@[i as int]@);
        assert(lv.take(i + 1).drop_last() =~= lv.take(i as int));
        let t = trimmed(ls[i].as_str());
        let ghost bk = strs_v(kept@);
        let ghost br = strs_v(removed@);
        if contains_str(&dead, t.as_str()) {
            removed.push(t);
            assert(strs_v(removed@) =~= br.push(trim_v(lv[i as int])));
        } else {
            kept.push(ls[i].clone());
            assert(strs_v(kept@) =~= bk.push(lv[i as int]));
        }
        i += 1;
    }
    assert(lv.take(lv.len() as int) =~= lv);
    let wanted = attribute_lines(frame_rel);
    let ghost wv = strs_v(wanted@);
    let mut added: Vec<String> = Vec::new();
    let mut j: usize = 0;
    while j < wanted.len()
        invariant
            j <= wanted@.len(),
            wv == strs_v(wanted@),
            strs_v(added@) == ga_added(wv.take(j as int), strs_v(kept@)),
        decreases wanted.len() - j,
    {
        assert(wv[j as int] == wanted@[j as int]@);
        assert(wv.take(j + 1).drop_last() =~= wv.take(j as int));
        let pattern = match first_word(wanted[j].as_str()) {
            Some(w) => w,
            None => String::new(),
        };
        let ghost ba = strs_v(added@);
        if !is_mentioned(&kept, pattern.as_str()) {
            added.push(wanted[j].clone());
            assert(strs_v(added@) =~= ba.push(wv[j as int]));
        }
        j += 1;
    }
    assert(wv.take(wv.len() as int) =~= wv);
    if added.len() == 0 && removed.len() == 0 {
        return None;
    }
    let ghost kv = strs_v(kept@);
    let ghost av = strs_v(added@);
    let ghost rv = strs_v(removed@);
    let ghost base = if rv.len() == 0 {
        existing@
    } else {
        let t = join_v(kv, '\n');
        if t.len() > 0 { t + seq!['\n'] } else { t }
    };
    let ghost c1s = if base.len() > 0 && base.last() != '\n' { base + seq!['\n'] } else { base };
    let ghost c2s = if c1s.len() == 0 && av.len() > 0 { c1s + ga_comment() + seq!['\n'] } else { c1s };
    let mut content = if removed.len() == 0 {
        String::from_str(existing)
    } else {
        join_nonempty(&kept)
    };
    assert(content@ == base);
    let cc = chars_of(content.as_str());
    if cc.len() > 0 && cc[cc.len() - 1] != '\n' {
        content.push('\n');
    }
    assert(content@ == c1s);
    let cc2 = chars_of(content.as_str());
    if cc2.len() == 0 && added.len() > 0 {
        push_str(&mut content, "# frame \u{2014} merge track and inbox files by task identity");
        content.push('\n');
    }
    assert(content@ == c2s);
    let ghost c2 = content@;
    let mut k: usize = 0;
    while k < added.len()
        invariant
            k <= added@.len(),
            content@ == append_lines(c2, strs_v(added@).take(k as int)),
        decreases added.len() - k,
    {
        assert(strs_v(added@).take(k + 1).drop_last() =~= strs_v(added@).take(k as int));
        assert(strs_v(added@)[k as int] == added@[k as int]@);
        push_str(&mut content, added[k].as_str());
        content.push('\n');
        k += 1;
    }
    assert(strs_v(added@).take(added@.len() as int) =~= strs_v(added@));
    Some(Planned { content, added, removed })
}

// ---------------------------------------------------------------------------
// A second plan over a written plan
// ---------------------------------------------------------------------------

proof fn lemma_kept_all(ls: Seq<Seq<char>>)
    ensures
        ga_kept(ls, Seq::empty()) == ls,
        ga_removed(ls, Seq::empty()) == Seq::<Seq<char>>::empty(),
    decreases ls.len(),
{
    if ls.len() > 0 {
        lemma_kept_all(ls.drop_last());
        assert(ls.drop_last().push(ls.last()) =~= ls);
    }
}

/// `ga_added` is empty exactly when every wanted pattern is mentioned.
proof fn lemma_added_empty(wanted: Seq<Seq<char>>, kept: Seq<Seq<char>>)
    ensures
        (ga_added(wanted, kept).len() == 0)
            == (forall|k: int| 0 <= k < wanted.len() ==> mentioned(kept, pattern_of(#[trigger] wanted[k]))),
    decreases wanted.len(),
{
    if wanted.len() > 0 {
        lemma_added_empty(wanted.drop_last(), kept);
        if forall|k: int| 0 <= k < wanted.len() ==> mentioned(kept, pattern_of(#[trigger] wanted[k])) {
            assert forall|k: int| 0 <= k < wanted.drop_last().len() implies mentioned(kept, pattern_of(#[trigger] wanted.drop_last()[k])) by {
                assert(wanted.drop_last()[k] == wanted[k]);
            }
            assert(mentioned(kept, pattern_of(wanted[wanted.len() - 1])));
        } else {
            let k = choose|k: int| 0 <= k < wanted.len() && !mentioned(kept, pattern_of(#[trigger] wanted[k]));
            if k < wanted.len() - 1 {
                assert(wanted.drop_last()[k] == wanted[k]);
            }
        }
    }
}

proof fn lemma_append_lines_from(c: Seq<char>, added: Seq<Seq<char>>)
    ensures
        append_lines(c, added) == c + append_lines(Seq::empty(), added),
    decreases added.len(),
{
    if added.len() > 0 {
        lemma_append_lines_from(c, added.drop_last());
        assert(c + append_lines(Seq::empty(), added.drop_last()) + added.last() + seq!['\n']
            =~= c + (append_lines(Seq::empty(), added.drop_last()) + added.last() + seq!['\n']));
    }
}

proof fn lemma_split_appended(added: Seq<Seq<char>>)
    requires
        forall|k: int| 0 <= k < added.len() ==> !(#[trigger] added[k]).contains('\n'),
    ensures
        split_v(append_lines(Seq::empty(), added), '\n') == added + seq![Seq::<char>::empty()],
        added.len() > 0 ==> append_lines(Seq::empty(), added).len() > 0
            && append_lines(Seq::empty(), added).last() == '\n',
    decreases added.len(),
{
    let t = append_lines(Seq::<char>::empty(), added);
    if added.len() == 0 {
        crate::refs::lemma_split_single(Seq::<char>::empty(), '\n');
        assert(added + seq![Seq::<char>::empty()] =~= seq![Seq::<char>::empty()]);
    } else {
        let a = added.last();
        let p = added.drop_last();
        assert forall|k: int| 0 <= k < p.len() implies !(#[trigger] p[k]).contains('\n') by {
            assert(p[k] == added[k]);
        }
        lemma_split_appended(p);
        let t1 = append_lines(Seq::<char>::empty(), p);
        assert(!a.contains('\n'));
        crate::refs::lemma_split_app(a, '\n', Seq::empty());
        crate::refs::lemma_split_single(a, '\n');
        crate::refs::lemma_split_single(Seq::<char>::empty(), '\n');
        if p.len() == 0 {
            assert(t =~= a + seq!['\n'] + Seq::<char>::empty());
            assert(added =~= seq![a]);
        } else {
            let t0 = t1.drop_last();
            assert(t1 =~= t0 + seq!['\n'] + Seq::<char>::empty());
            crate::refs::lemma_split_app(t0, '\n', Seq::empty());
            assert(t =~= t0 + seq!['\n'] + (a + seq!['\n'] + Seq::<char>::empty()));
            crate::refs::lemma_split_app(t0, '\n', a + seq!['\n'] + Seq::<char>::empty());
            assert(split_v(t0, '\n') + seq![Seq::<char>::empty()] == p + seq![Seq::<char>::empty()]);
            assert(split_v(t0, '\n') =~= p) by {
                assert(split_v(t0, '\n') =~= (split_v(t0, '\n') + seq![Seq::<char>::empty()]).drop_last());
                assert(p =~= (p + seq![Seq::<char>::empty()]).drop_last());
            }
            assert(split_v(t, '\n') =~= added + seq![Seq::<char>::empty()]);
        }
    }
}

proof fn lemma_word_start_prefix(s: Seq<char>, i: int)
    requires
        s.len() > 0,
        is_ws(s.last()),
        0 <= i <= s.len() - 1,
    ensures
        word_start(s, i) == (if word_start(s.drop_last(), i) >= s.len() - 1 { s.len() as int } else { word_start(s.drop_last(), i) }),
        word_start(s, i) < s.len() ==> word_end(s, word_start(s, i)) == word_end(s.drop_last(), word_start(s, i)),
    decreases s.len() - i,
{
    let d = s.drop_last();
    if i < s.len() - 1 {
        assert(d[i] == s[i]);
        lemma_word_start_prefix(s, i + 1);
        if !is_ws(s[i]) {
            lemma_word_end_prefix(s, i);
        }
    } else {
        assert(word_start(s, i + 1) == s.len());
    }
}

proof fn lemma_word_end_prefix(s: Seq<char>, i: int)
    requires
        s.len() > 0,
        is_ws(s.last()),
        0 <= i <= s.len() - 1,
    ensures
        word_end(s, i) == word_end(s.drop_last(), i),
    decreases s.len() - i,
{
    let d = s.drop_last();
    if i < s.len() - 1 {
        assert(d[i] == s[i]);
        if !is_ws(s[i]) {
            lemma_word_end_prefix(s, i + 1);
        }
    }
}

/// Dropping a final carriage return leaves a line's first word as it was.
proof fn lemma_first_word_cr(s: Seq<char>)
    ensures
        first_word_v(crate::parse::strip_cr(s)) == first_word_v(s),
{
    if s.len() > 0 && s.last() == '\r' {
        lemma_word_start_prefix(s, 0);
        let d = s.drop_last();
        lemma_word_bounds(d, 0);
        let a = word_start(s, 0);
        if a < s.len() {
            lemma_word_bounds(d, a);
            assert(s.subrange(a, word_end(s, a)) =~= d.subrange(a, word_end(d, a)));
        }
    }
}

proof fn lemma_word_found(s: Seq<char>, i: int)
    requires
        0 <= i < s.len(),
        !is_ws(s.last()),
    ensures
        word_start(s, i) < s.len(),
    decreases s.len() - i,
{
    if is_ws(s[i]) {
        lemma_word_found(s, i + 1);
    }
}

proof fn lemma_trim_end_slashes_sub(s: Seq<char>)
    ensures
        trim_end_slashes(s).len() <= s.len(),
        forall|j: int| 0 <= j < trim_end_slashes(s).len() ==> trim_end_slashes(s)[j] == s[j],
    decreases s.len(),
{
    if s.len() > 0 && s.last() == '/' {
        lemma_trim_end_slashes_sub(s.drop_last());
        assert forall|j: int| 0 <= j < trim_end_slashes(s).len() implies trim_end_slashes(s)[j] == s[j] by {
            assert(s.drop_last()[j] == s[j]);
        }
    }
}

proof fn lemma_added_from(wanted: Seq<Seq<char>>, kept: Seq<Seq<char>>)
    ensures
        forall|k: int| 0 <= k < ga_added(wanted, kept).len() ==> wanted.contains(#[trigger] ga_added(wanted, kept)[k]),
        forall|k: int| 0 <= k < wanted.len() && !mentioned(kept, pattern_of(#[trigger] wanted[k]))
            ==> ga_added(wanted, kept).contains(wanted[k]),
    decreases wanted.len(),
{
    if wanted.len() > 0 {
        let p = wanted.drop_last();
        lemma_added_from(p, kept);
        let a = ga_added(wanted, kept);
        let ap = ga_added(p, kept);
        assert forall|k: int| 0 <= k < a.len() implies wanted.contains(#[trigger] a[k]) by {
            if k < ap.len() {
                assert(a[k] == ap[k]);
                let j = choose|j: int| 0 <= j < p.len() && p[j] == ap[k];
                assert(wanted[j] == p[j]);
            } else {
                assert(a[k] == wanted[wanted.len() - 1]);
            }
        }
        assert forall|k: int| 0 <= k < wanted.len() && !mentioned(kept, pattern_of(#[trigger] wanted[k]))
            implies a.contains(wanted[k]) by {
            if k < p.len() {
                assert(p[k] == wanted[k]);
                let j = choose|j: int| 0 <= j < ap.len() && ap[j] == p[k];
                assert(a[j] == ap[j]);
            } else {
                assert(a[a.len() - 1] == wanted[k]);
            }
        }
    }
}

proof fn lemma_routing_lines(frame_rel: Seq<char>)
    requires
        !frame_rel.contains('\n'),
    ensures
        forall|k: int| 0 <= k < attribute_lines_v(frame_rel).len() ==>
            !(#[trigger] attribute_lines_v(frame_rel)[k]).contains('\n') && attribute_lines_v(frame_rel)[k].len() > 0
            && attribute_lines_v(frame_rel)[k].last() == 'e',
{
    let w = attribute_lines_v(frame_rel);
    let f = trim_end_slashes(frame_rel);
    reveal_strlit("/tracks/*.md merge=frame");
    reveal_strlit("/archive/*.md merge=frame");
    reveal_strlit("/archive/_tracks/*.md merge=frame");
    reveal_strlit("/inbox.md merge=frame");
    lemma_trim_end_slashes_sub(frame_rel);
    let tails = seq!["/tracks/*.md merge=frame"@, "/archive/*.md merge=frame"@,
        "/archive/_tracks/*.md merge=frame"@, "/inbox.md merge=frame"@];
    assert forall|k: int| 0 <= k < w.len() implies
        !(#[trigger] w[k]).contains('\n') && w[k].len() > 0 && w[k].last() == 'e' by {
        assert(w[k] == f + tails[k]);
        if w[k].contains('\n') {
            let j = choose|j: int| 0 <= j < w[k].len() && w[k][j] == '\n';
            if j < f.len() {
                assert(f[j] == '\n');
                assert(frame_rel[j] == '\n');
            } else {
                assert(tails[k][j - f.len()] == '\n');
            }
        }
    }
}

/// What a `.gitattributes` plan with nothing to remove writes: the file,
/// ended by a newline (or the comment, for an empty file), then each added
/// line.
pub open spec fn appended_content(existing: Seq<char>, added: Seq<Seq<char>>) -> Seq<char> {
    let c1 = if existing.len() > 0 && existing.last() != '\n' { existing + seq!['\n'] } else { existing };
    let c2 = if c1.len() == 0 && added.len() > 0 { c1 + ga_comment() + seq!['\n'] } else { c1 };
    append_lines(c2, added)
}

proof fn lemma_appended_lines(existing: Seq<char>, added: Seq<Seq<char>>)
    requires
        added.len() > 0,
        forall|k: int| 0 <= k < added.len() ==> !(#[trigger] added[k]).contains('\n') && added[k].len() > 0
            && added[k].last() == 'e',
    ensures
        ({
            let ls = lines_v(existing);
            let ls2 = lines_v(appended_content(existing, added));
            &&& forall|k: int| 0 <= k < added.len() ==> ls2.contains(#[trigger] added[k])
            &&& forall|k: int| 0 <= k < ls.len() ==> exists|m: int| 0 <= m < ls2.len()
                && first_word_v(#[trigger] ls2[m]) == first_word_v(#[trigger] ls[k])
            &&& crate::text::starts_with(appended_content(existing, added), existing)
        }),
{
    reveal_strlit("# frame \u{2014} merge track and inbox files by task identity");
    let ls = lines_v(existing);
    lemma_split_appended(added);
    let t = append_lines(Seq::<char>::empty(), added);
    let c1 = if existing.len() > 0 && existing.last() != '\n' { existing + seq!['\n'] } else { existing };
    let c2 = if c1.len() == 0 && added.len() > 0 { c1 + ga_comment() + seq!['\n'] } else { c1 };
    let content = appended_content(existing, added);
    lemma_append_lines_from(c2, added);
    assert(content == c2 + t);
    assert(c2.len() > 0 && c2.last() == '\n');
    let pp = c2.drop_last();
    assert(content =~= pp + seq!['\n'] + t);
    crate::refs::lemma_split_app(pp, '\n', t);
    let sp = crate::refs::split_v(pp, '\n');
    let ps = sp + (added + seq![Seq::<char>::empty()]);
    assert(crate::refs::split_v(content, '\n') == ps);
    let ls2 = lines_v(content);
    let body = sp + added;
    assert(ps.drop_last() =~= body);
    assert(ls2 == body.map_values(|q: Seq<char>| crate::parse::strip_cr(q)));
    assert forall|k: int| 0 <= k < added.len() implies ls2.contains(#[trigger] added[k]) by {
        assert(body[sp.len() + k] == added[k]);
        assert(ls2[sp.len() + k] == added[k]);
    }
    assert forall|k: int| 0 <= k < ls.len() implies exists|m: int| 0 <= m < ls2.len()
        && first_word_v(#[trigger] ls2[m]) == first_word_v(#[trigger] ls[k]) by {
        if existing.len() > 0 {
            if existing.last() == '\n' {
                assert(existing =~= pp + seq!['\n'] + Seq::<char>::empty());
                crate::refs::lemma_split_app(pp, '\n', Seq::<char>::empty());
                crate::refs::lemma_split_single(Seq::<char>::empty(), '\n');
                let ps0 = sp + seq![Seq::<char>::empty()];
                assert(crate::refs::split_v(existing, '\n') == ps0);
                assert(ps0.drop_last() =~= sp);
                assert(ls[k] == crate::parse::strip_cr(sp[k]));
                assert(body[k] == sp[k]);
                assert(ls2[k] == crate::parse::strip_cr(sp[k]));
            } else {
                assert(pp =~= existing);
                crate::parse::lemma_split_from(existing, '\n', 0);
                assert(sp.len() >= 1);
                assert(ls.len() <= sp.len());
                assert(k < sp.len());
                assert(body[k] == sp[k]);
                assert(ls2[k] == crate::parse::strip_cr(sp[k]));
                lemma_first_word_cr(sp[k]);
                if k < sp.len() - 1 {
                    assert(ls[k] == crate::parse::strip_cr(sp[k]));
                } else {
                    assert(ls[k] == sp[k]);
                }
            }
            assert(first_word_v(ls2[k]) == first_word_v(ls[k]));
        }
    }
    if existing.len() > 0 {
        assert(c2 == c1);
        assert(existing.len() <= c2.len());
        assert(c2.subrange(0, existing.len() as int) =~= existing);
        assert forall|j: int| 0 <= j < existing.len() implies content[j] == existing[j] by {
            assert(content[j] == c2[j]);
            assert(c2[j] == c2.subrange(0, existing.len() as int)[j]);
        }
        assert(content.subrange(0, existing.len() as int) =~= existing);
    } else {
        assert(content.subrange(0, 0) =~= existing);
    }
}

/// The proof behind `law_gitattributes_plan_settles` in the laws module.
pub(crate) proof fn lemma_attributes_settle(existing: Seq<char>, frame_rel: Seq<char>)
    requires
        !frame_rel.contains('\n'),
    ensures
        (planned_gitattributes_v(existing, frame_rel, None) is None) == (forall|k: int|
            0 <= k < attribute_lines_v(frame_rel).len()
                ==> mentioned(lines_v(existing), pattern_of(#[trigger] attribute_lines_v(frame_rel)[k]))),
        match planned_gitattributes_v(existing, frame_rel, None) {
            Some(p) => crate::text::starts_with(p.0, existing) && planned_gitattributes_v(p.0, frame_rel, None) is None,
            None => true,
        },
{
    let w = attribute_lines_v(frame_rel);
    let ls = lines_v(existing);
    lemma_kept_all(ls);
    lemma_added_empty(w, ls);
    let added = ga_added(w, ls);
    if added.len() == 0 {
        return;
    }
    lemma_routing_lines(frame_rel);
    lemma_added_from(w, ls);
    assert forall|k: int| 0 <= k < added.len() implies !(#[trigger] added[k]).contains('\n') && added[k].len() > 0
        && added[k].last() == 'e' by {
        let j = choose|j: int| 0 <= j < w.len() && w[j] == added[k];
    }
    let content = appended_content(existing, added);
    assert(planned_gitattributes_v(existing, frame_rel, None) == Some((content, added, Seq::<Seq<char>>::empty())));
    lemma_appended_lines(existing, added);
    let ls2 = lines_v(content);
    assert forall|k: int| 0 <= k < w.len() implies mentioned(ls2, pattern_of(#[trigger] w[k])) by {
        if mentioned(ls, pattern_of(w[k])) {
            let j = choose|j: int| 0 <= j < ls.len() && first_word_v(#[trigger] ls[j]) == Some(pattern_of(w[k]));
            assert(exists|m: int| 0 <= m < ls2.len() && first_word_v(#[trigger] ls2[m]) == first_word_v(ls[j]));
            let m = choose|m: int| 0 <= m < ls2.len() && first_word_v(#[trigger] ls2[m]) == first_word_v(ls[j]);
            assert(first_word_v(ls2[m]) == Some(pattern_of(w[k])));
        } else {
            assert(added.contains(w[k]));
            let j = choose|j: int| 0 <= j < added.len() && added[j] == w[k];
            assert(ls2.contains(added[j]));
            let m = choose|m: int| 0 <= m < ls2.len() && ls2[m] == added[j];
            lemma_word_found(w[k], 0);
            assert(first_word_v(ls2[m]) == Some(pattern_of(w[k])));
        }
    }
    lemma_kept_all(ls2);
    lemma_added_empty(w, ls2);
}

} // verus!
