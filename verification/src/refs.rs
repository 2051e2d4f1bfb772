//! What a `ref:` or `spec:` value points at: its path part, its normal
//! spelling, and whether it can be stored at all.
//!
//! A value is a path relative to the project root, optionally followed by a
//! `#anchor`, a `:line` or a `:line:col`. Only the file is validated, so the
//! suffixes are stripped before looking on disk; the disk lookup itself lives
//! with the caller, which hands the candidates from [`candidates`] to the
//! filesystem.

use vstd::prelude::*;
use vstd::string::*;
use crate::text::{
    chars_of, contains_string, find_char, find_char_from, lemma_find_char_from, push_str,
    seq_starts_with, starts_with, str_eq, string_of, take_chars, trim_chars, trim_v,
};

verus! {

// ---------------------------------------------------------------------------
// Splitting and joining
// ---------------------------------------------------------------------------

/// The pieces of `s[i..]` between occurrences of `c`.
pub open spec fn split_from(s: Seq<char>, c: char, i: int) -> Seq<Seq<char>>
    decreases s.len() - i,
{
    if i < 0 || i > s.len() {
        Seq::empty()
    } else {
        match find_char_from(s, c, i) {
            None => seq![s.subrange(i, s.len() as int)],
            Some(j) => if i <= j < s.len() {
                seq![s.subrange(i, j)] + split_from(s, c, j + 1)
            } else {
                Seq::empty()
            },
        }
    }
}

/// The pieces of `s` between occurrences of `c`, as `str::split` gives them.
pub open spec fn split_v(s: Seq<char>, c: char) -> Seq<Seq<char>> {
    split_from(s, c, 0)
}

/// The pieces joined with `c` between each pair.
pub open spec fn join_v(parts: Seq<Seq<char>>, c: char) -> Seq<char>
    decreases parts.len(),
{
    if parts.len() == 0 {
        Seq::empty()
    } else if parts.len() == 1 {
        parts[0]
    } else {
        join_v(parts.drop_last(), c) + seq![c] + parts.last()
    }
}

proof fn lemma_find_shift(s: Seq<char>, c: char, d: int, i: int)
    requires
        0 <= d <= i <= s.len(),
    ensures
        find_char_from(s, c, i) == match find_char_from(s.skip(d), c, i - d) {
            Some(j) => Some(j + d),
            None => None,
        },
    decreases s.len() - i,
{
    if i < s.len() {
        assert(s.skip(d)[i - d] == s[i]);
        if s[i] != c {
            lemma_find_shift(s, c, d, i + 1);
        }
    }
}

proof fn lemma_split_shift(s: Seq<char>, c: char, d: int, i: int)
    requires
        0 <= d <= i <= s.len(),
    ensures
        split_from(s, c, i) == split_from(s.skip(d), c, i - d),
    decreases s.len() - i,
{
    let t = s.skip(d);
    lemma_find_shift(s, c, d, i);
    lemma_find_char_from(s, c, i);
    match find_char_from(s, c, i) {
        None => {
            assert(s.subrange(i, s.len() as int) =~= t.subrange(i - d, t.len() as int));
        },
        Some(j) => {
            assert(s.subrange(i, j) =~= t.subrange(i - d, j - d));
            lemma_split_shift(s, c, d, j + 1);
        },
    }
}

proof fn lemma_find_none(s: Seq<char>, c: char, i: int)
    requires
        0 <= i <= s.len(),
        forall|k: int| i <= k < s.len() ==> s[k] != c,
    ensures
        find_char_from(s, c, i) is None,
    decreases s.len() - i,
{
    if i < s.len() {
        lemma_find_none(s, c, i + 1);
    }
}

/// Splitting a piece without `c` gives just that piece.
pub proof fn lemma_split_single(x: Seq<char>, c: char)
    requires
        !x.contains(c),
    ensures
        split_v(x, c) == seq![x],
{
    assert forall|k: int| 0 <= k < x.len() implies x[k] != c by {
        if x[k] == c {
            assert(x.contains(c));
        }
    }
    lemma_find_none(x, c, 0);
    assert(x.subrange(0, x.len() as int) =~= x);
}

/// Splitting `x c y`, with no `c` in `x`, gives `x` then the pieces of `y`.
pub proof fn lemma_split_cons(x: Seq<char>, c: char, y: Seq<char>)
    requires
        !x.contains(c),
    ensures
        split_v(x + seq![c] + y, c) == seq![x] + split_v(y, c),
{
    let s = x + seq![c] + y;
    assert forall|k: int| 0 <= k < x.len() implies s[k] != c by {
        assert(s[k] == x[k]);
        if x[k] == c {
            assert(x.contains(c));
        }
    }
    lemma_find_first(s, c, 0, x.len() as int);
    assert(s.subrange(0, x.len() as int) =~= x);
    lemma_split_shift(s, c, x.len() + 1int, x.len() + 1int);
    assert(s.skip(x.len() + 1int) =~= y);
}

proof fn lemma_find_first(s: Seq<char>, c: char, i: int, j: int)
    requires
        0 <= i <= j < s.len(),
        s[j] == c,
        forall|k: int| i <= k < j ==> s[k] != c,
    ensures
        find_char_from(s, c, i) == Some(j),
    decreases j - i,
{
    if i < j {
        lemma_find_first(s, c, i + 1, j);
    }
}

/// Joining from the front: the first piece, `c`, then the rest joined.
pub proof fn lemma_join_front(parts: Seq<Seq<char>>, c: char)
    requires
        parts.len() >= 2,
    ensures
        join_v(parts, c) == parts[0] + seq![c] + join_v(parts.drop_first(), c),
    decreases parts.len(),
{
    if parts.len() == 2 {
        assert(parts.drop_first().len() == 1);
        assert(join_v(parts.drop_first(), c) == parts[1]);
        assert(parts.drop_last().len() == 1);
        assert(join_v(parts.drop_last(), c) == parts[0]);
        assert(join_v(parts, c) =~= parts[0] + seq![c] + join_v(parts.drop_first(), c));
    } else {
        lemma_join_front(parts.drop_last(), c);
        assert(parts.drop_last().drop_first() =~= parts.drop_first().drop_last());
        assert(parts.drop_first().last() == parts.last());
        assert(parts.drop_last()[0] == parts[0]);
        let r = parts.drop_first();
        assert(join_v(r, c) == join_v(r.drop_last(), c) + seq![c] + r.last());
        assert(join_v(parts, c) == join_v(parts.drop_last(), c) + seq![c] + parts.last());
        assert(join_v(parts, c) =~= parts[0] + seq![c] + join_v(parts.drop_first(), c));
    }
}

/// Splitting joined pieces, none holding `c`, gives the pieces back.
pub proof fn lemma_split_join(parts: Seq<Seq<char>>, c: char)
    requires
        parts.len() >= 1,
        forall|k: int| 0 <= k < parts.len() ==> !(#[trigger] parts[k]).contains(c),
    ensures
        split_v(join_v(parts, c), c) == parts,
    decreases parts.len(),
{
    if parts.len() == 1 {
        lemma_split_single(parts[0], c);
        assert(seq![parts[0]] =~= parts);
    } else {
        lemma_join_front(parts, c);
        let rest = parts.drop_first();
        assert forall|k: int| 0 <= k < rest.len() implies !(#[trigger] rest[k]).contains(c) by {
            assert(rest[k] == parts[k + 1]);
        }
        lemma_split_join(rest, c);
        lemma_split_cons(parts[0], c, join_v(rest, c));
        assert(seq![parts[0]] + rest =~= parts);
    }
}

/// Splitting `x c y` gives the pieces of `x`, then those of `y`.
pub proof fn lemma_split_app(x: Seq<char>, c: char, y: Seq<char>)
    ensures
        split_v(x + seq![c] + y, c) == split_v(x, c) + split_v(y, c),
    decreases x.len(),
{
    if !x.contains(c) {
        lemma_split_cons(x, c, y);
        lemma_split_single(x, c);
    } else {
        lemma_find_char_from(x, c, 0);
        let j = match find_char_from(x, c, 0) {
            Some(j) => j,
            None => {
                let k = choose|k: int| 0 <= k < x.len() && x[k] == c;
                assert(false);
                0
            },
        };
        let x0 = x.subrange(0, j);
        let x1 = x.subrange(j + 1, x.len() as int);
        assert(!x0.contains(c)) by {
            if x0.contains(c) {
                let k = choose|k: int| 0 <= k < x0.len() && x0[k] == c;
                assert(x[k] == c);
            }
        }
        assert(x =~= x0 + seq![c] + x1);
        lemma_split_cons(x0, c, x1);
        lemma_split_app(x1, c, y);
        assert(x + seq![c] + y =~= x0 + seq![c] + (x1 + seq![c] + y));
        lemma_split_cons(x0, c, x1 + seq![c] + y);
        assert(seq![x0] + (split_v(x1, c) + split_v(y, c)) =~= (seq![x0] + split_v(x1, c)) + split_v(y, c));
    }
}

/// Split a character slice at every `c`.
pub fn split_chars(v: &[char], c: char) -> (r: Vec<Vec<char>>)
    ensures
        r@.map_values(|x: Vec<char>| x@) == split_v(v@, c),
{
    let mut out: Vec<Vec<char>> = Vec::new();
    let mut i: usize = 0;
    loop
        invariant
            i <= v@.len(),
            out@.map_values(|x: Vec<char>| x@) + split_from(v@, c, i as int) == split_v(v@, c),
        decreases v@.len() - i,
    {
        proof { lemma_find_char_from(v@, c, i as int); }
        match find_char(v, c, i) {
            None => {
                let mut seg: Vec<char> = Vec::new();
                let mut k = i;
                while k < v.len()
                    invariant
                        i <= k <= v@.len(),
                        seg@ == v@.subrange(i as int, k as int),
                    decreases v@.len() - k,
                {
                    seg.push(v[k]);
                    k += 1;
                    assert(seg@ =~= v@.subrange(i as int, k as int));
                }
                let ghost before = out@.map_values(|x: Vec<char>| x@);
                out.push(seg);
                assert(out@.map_values(|x: Vec<char>| x@) =~= before + seq![v@.subrange(i as int, v@.len() as int)]);
                return out;
            },
            Some(j) => {
                let mut seg: Vec<char> = Vec::new();
                let mut k = i;
                while k < j
                    invariant
                        i <= k <= j < v@.len(),
                        seg@ == v@.subrange(i as int, k as int),
                    decreases j - k,
                {
                    seg.push(v[k]);
                    k += 1;
                    assert(seg@ =~= v@.subrange(i as int, k as int));
                }
                let ghost before = out@.map_values(|x: Vec<char>| x@);
                out.push(seg);
                assert(out@.map_values(|x: Vec<char>| x@) =~= before + seq![v@.subrange(i as int, j as int)]);
                assert(before + split_from(v@, c, i as int) == before + (seq![v@.subrange(i as int, j as int)] + split_from(v@, c, j + 1)));
                assert(out@.map_values(|x: Vec<char>| x@) + split_from(v@, c, j + 1) =~= before + (seq![v@.subrange(i as int, j as int)] + split_from(v@, c, j + 1)));
                assert(j < v.len());
                i = j + 1;
            },
        }
    }
}

/// Join character pieces with `c`.
pub fn join_chars(parts: &Vec<Vec<char>>, c: char) -> (r: Vec<char>)
    ensures
        r@ == join_v(parts@.map_values(|x: Vec<char>| x@), c),
{
    let ghost ps = parts@.map_values(|x: Vec<char>| x@);
    let mut out: Vec<char> = Vec::new();
    let mut i: usize = 0;
    while i < parts.len()
        invariant
            i <= parts@.len(),
            ps == parts@.map_values(|x: Vec<char>| x@),
            out@ == join_v(ps.take(i as int), c),
        decreases parts.len() - i,
    {
        if i > 0 {
            out.push(c);
        }
        let p = &parts[i];
        let ghost mid = out@;
        let mut k: usize = 0;
        while k < p.len()
            invariant
                k <= p@.len(),
                out@ == mid + p@.take(k as int),
            decreases p.len() - k,
        {
            out.push(p[k]);
            k += 1;
            assert(out@ =~= mid + p@.take(k as int));
        }
        assert(p@.take(p@.len() as int) =~= p@);
        assert(ps.take(i + 1).drop_last() =~= ps.take(i as int));
        if i == 0 {
            assert(ps.take(1) =~= seq![ps[0]]);
            assert(out@ =~= join_v(ps.take(i + 1), c));
        } else {
            assert(out@ =~= join_v(ps.take(i + 1), c));
        }
        i += 1;
    }
    assert(ps.take(parts@.len() as int) =~= ps);
    out
}

// ---------------------------------------------------------------------------
// Suffixes
// ---------------------------------------------------------------------------

/// The path part of a value carrying an anchor: everything before the first `#`.
pub open spec fn strip_anchor_v(s: Seq<char>) -> Seq<char> {
    match find_char_from(s, '#', 0) {
        Some(j) => s.subrange(0, j),
        None => s,
    }
}

/// The path part of a value carrying an anchor: everything before the first `#`.
pub fn strip_anchor(value: &str) -> (r: &str)
    ensures
        r@ == strip_anchor_v(value@),
{
    let cs = chars_of(value);
    proof { lemma_find_char_from(cs@, '#', 0); }
    match find_char(&cs, '#', 0) {
        Some(j) => value.substring_char(0, j),
        None => value,
    }
}

/// Whether every character is an ASCII digit, and there is at least one.
pub open spec fn all_digits(s: Seq<char>) -> bool {
    s.len() > 0 && forall|k: int| 0 <= k < s.len() ==> '0' <= #[trigger] s[k] <= '9'
}

/// `807` or `807-820`: a line, or a range of them.
pub open spec fn is_line_segment_v(s: Seq<char>) -> bool {
    match find_char_from(s, '-', 0) {
        Some(j) => all_digits(s.subrange(0, j)) && all_digits(s.subrange(j + 1, s.len() as int)),
        None => all_digits(s),
    }
}

fn digits(v: &[char], from: usize, to: usize) -> (r: bool)
    requires
        from <= to <= v@.len(),
    ensures
        r == all_digits(v@.subrange(from as int, to as int)),
{
    if from == to {
        return false;
    }
    let mut i = from;
    while i < to
        invariant
            from <= i <= to <= v@.len(),
            forall|k: int| from <= k < i ==> '0' <= #[trigger] v@[k] <= '9',
        decreases to - i,
    {
        if !('0' <= v[i] && v[i] <= '9') {
            assert(v@.subrange(from as int, to as int)[i - from] == v@[i as int]);
            return false;
        }
        i += 1;
    }
    assert forall|k: int| 0 <= k < to - from implies '0' <= #[trigger] v@.subrange(from as int, to as int)[k] <= '9' by {
        assert(v@.subrange(from as int, to as int)[k] == v@[from + k]);
    }
    true
}

fn is_line_segment(v: &[char]) -> (r: bool)
    ensures
        r == is_line_segment_v(v@),
{
    proof { lemma_find_char_from(v@, '-', 0); }
    assert(v@.subrange(0, v@.len() as int) =~= v@);
    match find_char(v, '-', 0) {
        Some(j) => {
            assert(j < v.len());
            digits(v, 0, j) && digits(v, j + 1, v.len())
        },
        None => digits(v, 0, v.len()),
    }
}

/// The position of the last `c` in `s`, if any.
pub open spec fn rfind_char(s: Seq<char>, c: char) -> Option<int>
    decreases s.len(),
{
    if s.len() == 0 {
        None
    } else if s.last() == c {
        Some(s.len() - 1)
    } else {
        rfind_char(s.drop_last(), c)
    }
}

proof fn lemma_rfind_char(s: Seq<char>, c: char)
    ensures
        match rfind_char(s, c) {
            Some(j) => 0 <= j < s.len() && s[j] == c,
            None => true,
        },
    decreases s.len(),
{
    if s.len() > 0 && s.last() != c {
        lemma_rfind_char(s.drop_last(), c);
    }
}

/// One stripping of a trailing `:line` segment, when there is one with a
/// non-empty head.
pub open spec fn strip_line_once(s: Seq<char>) -> Seq<char> {
    match rfind_char(s, ':') {
        Some(j) => if j > 0 && is_line_segment_v(s.subrange(j + 1, s.len() as int)) {
            s.subrange(0, j)
        } else {
            s
        },
        None => s,
    }
}

/// The path part of a value carrying a line reference: `:N`, `:N-M`, or a
/// second such segment for a column. At most two segments are stripped.
pub open spec fn strip_line_ref_v(s: Seq<char>) -> Seq<char> {
    strip_line_once(strip_line_once(s))
}

fn strip_line_once_len(v: &[char]) -> (r: usize)
    ensures
        r <= v@.len(),
        v@.subrange(0, r as int) == strip_line_once(v@),
{
    proof { lemma_rfind_char(v@, ':'); }
    let mut i = v.len();
    assert(v@.subrange(0, i as int) =~= v@);
    while i > 0 && v[i - 1] != ':'
        invariant
            i <= v@.len(),
            rfind_char(v@, ':') == rfind_char(v@.subrange(0, i as int), ':'),
        decreases i,
    {
        assert(v@.subrange(0, i as int).drop_last() =~= v@.subrange(0, i - 1));
        i -= 1;
    }
    if i == 0 {
        assert(v@.subrange(0, 0) =~= Seq::<char>::empty());
        assert(v@.subrange(0, v@.len() as int) =~= v@);
        return v.len();
    }
    let j = i - 1;
    assert(rfind_char(v@, ':') == Some(j as int));
    let mut tail: Vec<char> = Vec::new();
    let mut k = j + 1;
    while k < v.len()
        invariant
            j + 1 <= k <= v@.len(),
            tail@ == v@.subrange(j + 1, k as int),
        decreases v@.len() - k,
    {
        tail.push(v[k]);
        k += 1;
        assert(tail@ =~= v@.subrange(j + 1, k as int));
    }
    if j > 0 && is_line_segment(&tail) {
        j
    } else {
        assert(v@.subrange(0, v@.len() as int) =~= v@);
        v.len()
    }
}

/// The path part of a value carrying a line reference: `:N`, `:N-M`, or a
/// second such segment for a column (`:N:C`). Bounded to two strippings, so
/// beyond a line and a column the colon is part of the name.
pub fn strip_line_ref(value: &str) -> (r: &str)
    ensures
        r@ == strip_line_ref_v(value@),
{
    let cs = chars_of(value);
    let a = strip_line_once_len(&cs);
    let first: Vec<char> = take_chars(&cs, a);
    let b = strip_line_once_len(&first);
    assert(first@ == strip_line_once(value@));
    value.substring_char(0, b)
}

// ---------------------------------------------------------------------------
// Normal form
// ---------------------------------------------------------------------------

pub open spec fn dot() -> Seq<char> {
    seq!['.']
}

pub open spec fn dotdot() -> Seq<char> {
    seq!['.', '.']
}

/// Fold one `/`-separated segment onto the folded path so far.
pub open spec fn fold_step(acc: Seq<Seq<char>>, seg: Seq<char>) -> Seq<Seq<char>> {
    if seg == dot() || seg.len() == 0 {
        acc
    } else if seg == dotdot() {
        if acc.len() == 0 || acc.last() == dotdot() {
            acc.push(seg)
        } else {
            acc.drop_last()
        }
    } else {
        acc.push(seg)
    }
}

/// The first `n` segments folded: `.` and empty segments dropped, and each
/// `..` cancelling the segment before it when there is one to cancel.
pub open spec fn fold_segments(segs: Seq<Seq<char>>, n: int) -> Seq<Seq<char>>
    decreases n,
{
    if n <= 0 {
        Seq::empty()
    } else {
        fold_step(fold_segments(segs, n - 1), segs[n - 1])
    }
}

/// The normal spelling of a value: trimmed, with `.` and `..` folded away
/// lexically. A leading `/` survives, as does a leading `..` with nothing to
/// cancel; a value that folds to nothing names the project root, `.`.
pub open spec fn normalize_v(value: Seq<char>) -> Seq<char> {
    let v = trim_v(value);
    if v.len() == 0 {
        Seq::empty()
    } else {
        let segs = split_v(v, '/');
        let joined = join_v(fold_segments(segs, segs.len() as int), '/');
        if v[0] == '/' {
            seq!['/'] + joined
        } else if joined.len() == 0 {
            dot()
        } else {
            joined
        }
    }
}

/// Whether a list of segments is already folded: no empty, `.` or `/`-holding
/// segment, and every `..` before every other segment.
pub open spec fn folded(f: Seq<Seq<char>>) -> bool {
    &&& forall|k: int| 0 <= k < f.len() ==> (#[trigger] f[k]).len() > 0 && f[k] != dot() && !f[k].contains('/')
    &&& forall|i: int, j: int| 0 <= i < j < f.len() && #[trigger] f[j] == dotdot() ==> #[trigger] f[i] == dotdot()
}

proof fn lemma_fold_folded(segs: Seq<Seq<char>>, n: int)
    requires
        0 <= n <= segs.len(),
        forall|k: int| 0 <= k < segs.len() ==> !(#[trigger] segs[k]).contains('/'),
    ensures
        folded(fold_segments(segs, n)),
    decreases n,
{
    if n > 0 {
        lemma_fold_folded(segs, n - 1);
        let a = fold_segments(segs, n - 1);
        let r = fold_segments(segs, n);
        let seg = segs[n - 1];
        if seg == dot() || seg.len() == 0 {
        } else if seg == dotdot() {
            if a.len() == 0 || a.last() == dotdot() {
                assert forall|k: int| 0 <= k < r.len() implies (#[trigger] r[k]).len() > 0 && r[k] != dot() && !r[k].contains('/') by {
                    if k < a.len() {
                        assert(r[k] == a[k]);
                    }
                }
                assert forall|i: int, j: int| 0 <= i < j < r.len() && #[trigger] r[j] == dotdot() implies #[trigger] r[i] == dotdot() by {
                    assert(r[i] == a[i]);
                    if j < a.len() {
                        assert(r[j] == a[j]);
                    } else if i < a.len() - 1 {
                        assert(a[a.len() - 1] == dotdot());
                    }
                }
            } else {
                assert forall|k: int| 0 <= k < r.len() implies (#[trigger] r[k]).len() > 0 && r[k] != dot() && !r[k].contains('/') by {
                    assert(r[k] == a[k]);
                }
                assert forall|i: int, j: int| 0 <= i < j < r.len() && #[trigger] r[j] == dotdot() implies #[trigger] r[i] == dotdot() by {
                    assert(r[i] == a[i] && r[j] == a[j]);
                }
            }
        } else {
            assert forall|k: int| 0 <= k < r.len() implies (#[trigger] r[k]).len() > 0 && r[k] != dot() && !r[k].contains('/') by {
                if k < a.len() {
                    assert(r[k] == a[k]);
                }
            }
            assert forall|i: int, j: int| 0 <= i < j < r.len() && #[trigger] r[j] == dotdot() implies #[trigger] r[i] == dotdot() by {
                assert(r[i] == a[i]);
                if j < a.len() {
                    assert(r[j] == a[j]);
                }
            }
        }
    }
}

proof fn lemma_fold_fixed(f: Seq<Seq<char>>, k: int)
    requires
        folded(f),
        0 <= k <= f.len(),
    ensures
        fold_segments(f, k) == f.take(k),
    decreases k,
{
    if k > 0 {
        lemma_fold_fixed(f, k - 1);
        let a = f.take(k - 1);
        let seg = f[k - 1];
        assert(seg.len() > 0 && seg != dot());
        if seg == dotdot() && a.len() > 0 {
            assert(f[k - 2] == dotdot());
            assert(a.last() == f[k - 2]);
        }
        assert(a.push(seg) =~= f.take(k));
    }
}

proof fn lemma_fold_after_empty(f: Seq<Seq<char>>, k: int)
    requires
        folded(f),
        0 <= k <= f.len(),
    ensures
        fold_segments(seq![Seq::<char>::empty()] + f, k + 1) == f.take(k),
    decreases k,
{
    let g = seq![Seq::<char>::empty()] + f;
    if k == 0 {
        assert(fold_segments(g, 0) == Seq::<Seq<char>>::empty());
        assert(g[0].len() == 0);
        assert(f.take(0) =~= Seq::<Seq<char>>::empty());
    } else {
        lemma_fold_after_empty(f, k - 1);
        assert(g[k] == f[k - 1]);
        let a = f.take(k - 1);
        let seg = f[k - 1];
        assert(seg.len() > 0 && seg != dot());
        if seg == dotdot() && a.len() > 0 {
            assert(f[k - 2] == dotdot());
            assert(a.last() == f[k - 2]);
        }
        assert(a.push(seg) =~= f.take(k));
    }
}

proof fn lemma_join_first(parts: Seq<Seq<char>>, c: char)
    requires
        parts.len() >= 1,
        parts[0].len() > 0,
    ensures
        join_v(parts, c).len() > 0,
        join_v(parts, c)[0] == parts[0][0],
{
    if parts.len() >= 2 {
        lemma_join_front(parts, c);
    }
}

/// A normal spelling that no surrounding whitespace would change is its own
/// normal spelling.
pub proof fn lemma_normalize_settles(value: Seq<char>)
    requires
        trim_v(normalize_v(value)) == normalize_v(value),
    ensures
        normalize_v(normalize_v(value)) == normalize_v(value),
{
    let v = trim_v(value);
    let n = normalize_v(value);
    if v.len() == 0 {
        assert(n.len() == 0);
        assert(trim_v(n).len() == 0);
        return;
    }
    let segs = split_v(v, '/');
    crate::parse::lemma_split_from(v, '/', 0);
    lemma_fold_folded(segs, segs.len() as int);
    let f = fold_segments(segs, segs.len() as int);
    let j = join_v(f, '/');
    assert(trim_v(n) == n);
    if v[0] == '/' {
        assert(n == seq!['/'] + j);
        assert(n == Seq::<char>::empty() + seq!['/'] + j);
        lemma_split_cons(Seq::<char>::empty(), '/', j);
        if f.len() == 0 {
            assert(j.len() == 0);
            lemma_split_single(j, '/');
            let g = seq![Seq::<char>::empty(), Seq::<char>::empty()];
            assert(split_v(n, '/') =~= g);
            assert(g[0].len() == 0 && g[1].len() == 0);
            assert(fold_segments(g, 0) == Seq::<Seq<char>>::empty());
            assert(fold_segments(g, 1) == fold_step(fold_segments(g, 0), g[0]));
            assert(fold_segments(g, 1) == Seq::<Seq<char>>::empty());
            assert(fold_segments(g, 2) == fold_step(fold_segments(g, 1), g[1]));
            assert(fold_segments(g, 2) =~= Seq::<Seq<char>>::empty());
        } else {
            assert forall|k: int| 0 <= k < f.len() implies !(#[trigger] f[k]).contains('/') by {}
            lemma_split_join(f, '/');
            assert(split_v(n, '/') =~= seq![Seq::<char>::empty()] + f);
            lemma_fold_after_empty(f, f.len() as int);
            assert(f.take(f.len() as int) =~= f);
        }
        assert(n[0] == '/');
    } else if j.len() == 0 {
        assert(n == dot());
        assert(!n.contains('/'));
        lemma_split_single(n, '/');
        let g = seq![n];
        assert(g[0] == dot());
        assert(fold_segments(g, 0) == Seq::<Seq<char>>::empty());
        assert(fold_segments(g, 1) == fold_step(fold_segments(g, 0), g[0]));
        assert(fold_segments(g, 1) =~= Seq::<Seq<char>>::empty());
    } else {
        assert(n == j);
        assert(f.len() >= 1);
        assert forall|k: int| 0 <= k < f.len() implies !(#[trigger] f[k]).contains('/') by {}
        lemma_split_join(f, '/');
        lemma_fold_fixed(f, f.len() as int);
        assert(f.take(f.len() as int) =~= f);
        lemma_join_first(f, '/');
        assert(f[0].len() > 0 && !f[0].contains('/'));
        if f[0][0] == '/' {
            assert(f[0].contains('/'));
        }
    }
}

fn is_dot(v: &Vec<char>) -> (r: bool)
    ensures
        r == (v@ == dot()),
{
    let r = v.len() == 1 && v[0] == '.';
    if r {
        assert(v@ =~= dot());
    }
    r
}

fn is_dotdot(v: &Vec<char>) -> (r: bool)
    ensures
        r == (v@ == dotdot()),
{
    let r = v.len() == 2 && v[0] == '.' && v[1] == '.';
    if r {
        assert(v@ =~= dotdot());
    }
    r
}

/// The value with `.` and `..` segments folded away, so that every spelling
/// of one file gives one string. Lexical: nothing is read from disk.
pub fn normalize(value: &str) -> (r: String)
    ensures
        r@ == normalize_v(value@),
{
    let v = trim_chars(&chars_of(value));
    if v.len() == 0 {
        return String::new();
    }
    let absolute = v[0] == '/';
    let segs = split_chars(&v, '/');
    let ghost sv = segs@.map_values(|x: Vec<char>| x@);
    let mut out: Vec<Vec<char>> = Vec::new();
    let mut i: usize = 0;
    while i < segs.len()
        invariant
            i <= segs@.len(),
            sv == segs@.map_values(|x: Vec<char>| x@),
            out@.map_values(|x: Vec<char>| x@) == fold_segments(sv, i as int),
        decreases segs.len() - i,
    {
        let seg = &segs[i];
        let ghost before = out@.map_values(|x: Vec<char>| x@);
        assert(sv[i as int] == seg@);
        if is_dot(seg) || seg.len() == 0 {
        } else if is_dotdot(seg) {
            let last_is_dotdot = out.len() > 0 && is_dotdot(&out[out.len() - 1]);
            if out.len() == 0 || last_is_dotdot {
                out.push(seg.clone());
                assert(out@.map_values(|x: Vec<char>| x@) =~= before.push(seg@));
            } else {
                out.pop();
                assert(out@.map_values(|x: Vec<char>| x@) =~= before.drop_last());
            }
        } else {
            out.push(seg.clone());
            assert(out@.map_values(|x: Vec<char>| x@) =~= before.push(seg@));
        }
        i += 1;
    }
    let joined = join_chars(&out, '/');
    if absolute {
        let mut r = String::new();
        r.push('/');
        let rest = string_of(&joined);
        push_str(&mut r, rest.as_str());
        assert(r@ =~= seq!['/'] + joined@);
        r
    } else if joined.len() == 0 {
        let mut r = String::new();
        r.push('.');
        assert(r@ =~= dot());
        r
    } else {
        string_of(&joined)
    }
}

/// Why a value cannot be stored, beyond the file not being there.
#[derive(Clone, Copy, Debug, PartialEq, Eq, Structural)]
pub enum PathRejection {
    /// An absolute path.
    Absolute,
    /// Escapes the project root after folding: `../outside.md`.
    Escapes,
}

impl PathRejection {
    /// The clause a message puts after the path, in the shape "<path> ...".
    pub fn reason(self) -> (r: &'static str)
        ensures
            self is Absolute ==> r@ == "is absolute — a ref is relative to the project root, so this one means nothing on another machine"@,
            self is Escapes ==> r@ == "leaves the project root — nothing outside it travels with the project"@,
    {
        match self {
            PathRejection::Absolute => "is absolute — a ref is relative to the project root, so this one means nothing on another machine",
            PathRejection::Escapes => "leaves the project root — nothing outside it travels with the project",
        }
    }
}

/// What [`containment`] answers for a value's normal form.
pub open spec fn containment_v(value: Seq<char>) -> Option<PathRejection> {
    let n = normalize_v(value);
    if n.len() == 0 {
        None
    } else if n[0] == '/' {
        Some(PathRejection::Absolute)
    } else if n == dotdot() || starts_with(n, seq!['.', '.', '/']) {
        Some(PathRejection::Escapes)
    } else {
        None
    }
}

/// Whether a value names something the project can point at, or `None` when
/// it is fine. Pure: decided by the value's own spelling.
pub fn containment(value: &str) -> (r: Option<PathRejection>)
    ensures
        r == containment_v(value@),
{
    let n = normalize(value);
    let cs = chars_of(n.as_str());
    if cs.len() == 0 {
        return None;
    }
    if cs[0] == '/' {
        return Some(PathRejection::Absolute);
    }
    let prefix = vec!['.', '.', '/'];
    assert(prefix@ =~= seq!['.', '.', '/']);
    if is_dotdot(&cs) || seq_starts_with(&cs, &prefix) {
        return Some(PathRejection::Escapes);
    }
    None
}

/// Whether two values name the same file, whatever spelling each uses. The
/// suffix is part of the identity.
pub fn same_path(a: &str, b: &str) -> (r: bool)
    ensures
        r == (normalize_v(a@) == normalize_v(b@)),
{
    let x = normalize(a);
    let y = normalize(b);
    str_eq(x.as_str(), y.as_str())
}

/// Every reading of a value, most literal first: the whole value, then it
/// without its anchor, without its line reference, and without both — each
/// only when non-empty and not already listed.
pub open spec fn candidates_v(value: Seq<char>) -> Seq<Seq<char>> {
    let a = strip_anchor_v(value);
    let l = strip_line_ref_v(value);
    let al = strip_line_ref_v(a);
    let s0 = seq![value];
    let s1 = if a.len() > 0 && !s0.contains(a) { s0.push(a) } else { s0 };
    let s2 = if l.len() > 0 && !s1.contains(l) { s1.push(l) } else { s1 };
    if al.len() > 0 && !s2.contains(al) { s2.push(al) } else { s2 }
}

fn push_candidate(out: &mut Vec<String>, c: &str)
    ensures
        strs_view(final(out)@) == (if c@.len() > 0 && !strs_view(old(out)@).contains(c@) {
            strs_view(old(out)@).push(c@)
        } else {
            strs_view(old(out)@)
        }),
{
    let n = c.unicode_len();
    if n > 0 && !contains_string(out.as_slice(), c) {
        let ghost before = strs_view(out@);
        out.push(String::from_str(c));
        assert(strs_view(out@) =~= before.push(c@));
    } else {
        proof {
            if c@.len() > 0 {
                assert(exists|k: int| 0 <= k < out@.len() && (#[trigger] out@[k])@ == c@);
                let k = choose|k: int| 0 <= k < out@.len() && (#[trigger] out@[k])@ == c@;
                assert(strs_view(out@)[k] == c@);
            }
        }
    }
}

pub open spec fn strs_view(v: Seq<String>) -> Seq<Seq<char>> {
    v.map_values(|s: String| s@)
}

/// Every reading of a `ref:`/`spec:` value, most literal first. A caller
/// resolves the value by asking whether any of these names a file.
pub fn candidates(value: &str) -> (r: Vec<String>)
    ensures
        strs_view(r@) == candidates_v(value@),
{
    let mut out: Vec<String> = Vec::new();
    out.push(String::from_str(value));
    assert(strs_view(out@) =~= seq![value@]);
    let a = strip_anchor(value);
    let l = strip_line_ref(value);
    let al = strip_line_ref(a);
    push_candidate(&mut out, a);
    push_candidate(&mut out, l);
    push_candidate(&mut out, al);
    out
}

} // verus!
