//! Character-level text helpers, each stated over the `Seq<char>` view of a
//! string.

use vstd::prelude::*;

verus! {

/// `String::push` appends one character.
pub assume_specification[ String::push ](s: &mut String, ch: char)
    ensures
        final(s)@ == old(s)@.push(ch),
;

/// The characters of a string.
pub fn chars_of(s: &str) -> (r: Vec<char>)
    ensures
        r@ == s@,
{
    let mut out: Vec<char> = Vec::new();
    for c in it: s.chars()
        invariant
            out@ == it.seq().take(it.index() as int),
            it.seq() == s@,
    {
        out.push(c);
    }
    out
}

/// A string holding exactly these characters.
pub fn string_of(v: &[char]) -> (r: String)
    ensures
        r@ == v@,
{
    let mut out = String::new();
    let mut i: usize = 0;
    while i < v.len()
        invariant
            i <= v.len(),
            out@ == v@.take(i as int),
        decreases v.len() - i,
    {
        out.push(v[i]);
        i += 1;
        assert(out@ == v@.take(i as int));
    }
    out
}

/// The characters `v[from..to]` as a string.
pub fn substring(v: &[char], from: usize, to: usize) -> (r: String)
    requires
        from <= to <= v@.len(),
    ensures
        r@ == v@.subrange(from as int, to as int),
{
    let mut out = String::new();
    let mut i: usize = from;
    while i < to
        invariant
            from <= i <= to <= v@.len(),
            out@ == v@.subrange(from as int, i as int),
        decreases to - i,
    {
        out.push(v[i]);
        i += 1;
        assert(out@ =~= v@.subrange(from as int, i as int));
    }
    out
}

/// Append every character of `s` to `out`.
pub fn push_str(out: &mut String, s: &str)
    ensures
        final(out)@ == old(out)@ + s@,
{
    let cs = chars_of(s);
    let mut i: usize = 0;
    while i < cs.len()
        invariant
            i <= cs@.len(),
            cs@ == s@,
            out@ == old(out)@ + cs@.take(i as int),
        decreases cs.len() - i,
    {
        out.push(cs[i]);
        i += 1;
        assert(out@ =~= old(out)@ + cs@.take(i as int));
    }
    assert(cs@.take(cs@.len() as int) =~= cs@);
}

/// Whether two strings hold the same characters.
pub fn str_eq(a: &str, b: &str) -> (r: bool)
    ensures
        r == (a@ == b@),
{
    let x = chars_of(a);
    let y = chars_of(b);
    seq_eq(&x, &y)
}

/// Whether two character slices are equal.
pub fn seq_eq(x: &[char], y: &[char]) -> (r: bool)
    ensures
        r == (x@ == y@),
{
    if x.len() != y.len() {
        return false;
    }
    let mut i: usize = 0;
    while i < x.len()
        invariant
            i <= x@.len(),
            x@.len() == y@.len(),
            forall|k: int| 0 <= k < i ==> x@[k] == y@[k],
        decreases x.len() - i,
    {
        if x[i] != y[i] {
            return false;
        }
        i += 1;
    }
    assert(x@ =~= y@);
    true
}

/// Whether `s` begins with `p`.
pub open spec fn starts_with(s: Seq<char>, p: Seq<char>) -> bool {
    p.len() <= s.len() && s.subrange(0, p.len() as int) == p
}

/// Whether `s` ends with `p`.
pub open spec fn ends_with(s: Seq<char>, p: Seq<char>) -> bool {
    p.len() <= s.len() && s.subrange(s.len() - p.len(), s.len() as int) == p
}

pub fn seq_starts_with(s: &[char], p: &[char]) -> (r: bool)
    ensures
        r == starts_with(s@, p@),
{
    if p.len() > s.len() {
        return false;
    }
    let mut i: usize = 0;
    while i < p.len()
        invariant
            i <= p@.len() <= s@.len(),
            forall|k: int| 0 <= k < i ==> s@[k] == p@[k],
        decreases p.len() - i,
    {
        if s[i] != p[i] {
            return false;
        }
        i += 1;
    }
    assert(s@.subrange(0, p@.len() as int) =~= p@);
    true
}

pub fn seq_ends_with(s: &[char], p: &[char]) -> (r: bool)
    ensures
        r == ends_with(s@, p@),
{
    if p.len() > s.len() {
        return false;
    }
    let off = s.len() - p.len();
    let mut i: usize = 0;
    while i < p.len()
        invariant
            i <= p@.len() <= s@.len(),
            off == s@.len() - p@.len(),
            forall|k: int| 0 <= k < i ==> s@[off + k] == p@[k],
        decreases p.len() - i,
    {
        assert(off + i < s@.len());
        assert(s@.len() == s.len());
        if s[off + i] != p[i] {
            return false;
        }
        i += 1;
    }
    assert(s@.subrange(s@.len() - p@.len(), s@.len() as int) =~= p@);
    true
}

pub fn str_starts_with(s: &str, p: &str) -> (r: bool)
    ensures
        r == starts_with(s@, p@),
{
    seq_starts_with(&chars_of(s), &chars_of(p))
}

pub fn str_ends_with(s: &str, p: &str) -> (r: bool)
    ensures
        r == ends_with(s@, p@),
{
    seq_ends_with(&chars_of(s), &chars_of(p))
}

/// Whitespace as `str::trim` treats it, restricted to the ASCII characters a
/// frame file holds.
pub open spec fn is_ws(c: char) -> bool {
    c == ' ' || c == '\t' || c == '\n' || c == '\r'
}

/// The index of the first non-whitespace character, or `s.len()`.
pub open spec fn ws_prefix(s: Seq<char>) -> int
    decreases s.len(),
{
    if s.len() == 0 || !is_ws(s[0]) {
        0
    } else {
        1 + ws_prefix(s.drop_first())
    }
}

/// The index just past the last non-whitespace character, or 0.
pub open spec fn ws_suffix_start(s: Seq<char>) -> int
    decreases s.len(),
{
    if s.len() == 0 || !is_ws(s.last()) {
        s.len() as int
    } else {
        ws_suffix_start(s.drop_last())
    }
}

/// `s` with leading and trailing whitespace removed.
pub open spec fn trim_v(s: Seq<char>) -> Seq<char> {
    let a = ws_prefix(s);
    let b = ws_suffix_start(s);
    if a >= b {
        Seq::empty()
    } else {
        s.subrange(a, b)
    }
}

pub proof fn lemma_ws_prefix(s: Seq<char>)
    ensures
        0 <= ws_prefix(s) <= s.len(),
        forall|k: int| 0 <= k < ws_prefix(s) ==> is_ws(#[trigger] s[k]),
        ws_prefix(s) < s.len() ==> !is_ws(s[ws_prefix(s)]),
    decreases s.len(),
{
    if s.len() > 0 && is_ws(s[0]) {
        lemma_ws_prefix(s.drop_first());
        assert forall|k: int| 0 <= k < ws_prefix(s) implies is_ws(#[trigger] s[k]) by {
            if k > 0 {
                assert(s[k] == s.drop_first()[k - 1]);
            }
        }
    }
}

proof fn lemma_ws_suffix(s: Seq<char>)
    ensures
        0 <= ws_suffix_start(s) <= s.len(),
        forall|k: int| ws_suffix_start(s) <= k < s.len() ==> is_ws(#[trigger] s[k]),
        ws_suffix_start(s) > 0 ==> !is_ws(s[ws_suffix_start(s) - 1]),
    decreases s.len(),
{
    if s.len() > 0 && is_ws(s.last()) {
        lemma_ws_suffix(s.drop_last());
        assert forall|k: int| ws_suffix_start(s) <= k < s.len() implies is_ws(#[trigger] s[k]) by {
            if k < s.len() - 1 {
                assert(s[k] == s.drop_last()[k]);
            }
        }
    }
}

/// The whitespace-trimmed characters of a slice.
pub fn trim_chars(v: &[char]) -> (r: Vec<char>)
    ensures
        r@ == trim_v(v@),
{
    proof {
        lemma_ws_prefix(v@);
        lemma_ws_suffix(v@);
    }
    let mut a: usize = 0;
    while a < v.len() && (v[a] == ' ' || v[a] == '\t' || v[a] == '\n' || v[a] == '\r')
        invariant
            a <= v@.len(),
            a <= ws_prefix(v@),
        decreases v.len() - a,
    {
        proof { lemma_ws_prefix(v@); }
        a += 1;
    }
    let mut b: usize = v.len();
    while b > 0 && (v[b - 1] == ' ' || v[b - 1] == '\t' || v[b - 1] == '\n' || v[b - 1] == '\r')
        invariant
            b <= v@.len(),
            b >= ws_suffix_start(v@),
        decreases b,
    {
        proof { lemma_ws_suffix(v@); }
        b -= 1;
    }
    let mut out: Vec<char> = Vec::new();
    if a < b {
        let mut i = a;
        while i < b
            invariant
                a <= i <= b <= v@.len(),
                out@ == v@.subrange(a as int, i as int),
            decreases b - i,
        {
            out.push(v[i]);
            i += 1;
            assert(out@ =~= v@.subrange(a as int, i as int));
        }
    } else {
        assert(out@ =~= Seq::<char>::empty());
    }
    out
}

/// How many whitespace characters a slice starts with.
pub fn ws_prefix_len(v: &[char]) -> (r: usize)
    ensures
        r as int == ws_prefix(v@),
{
    proof { lemma_ws_prefix(v@); }
    let mut a: usize = 0;
    while a < v.len() && (v[a] == ' ' || v[a] == '\t' || v[a] == '\n' || v[a] == '\r')
        invariant
            a <= v@.len(),
            a <= ws_prefix(v@),
            0 <= ws_prefix(v@) <= v@.len(),
            forall|k: int| 0 <= k < ws_prefix(v@) ==> is_ws(#[trigger] v@[k]),
            ws_prefix(v@) < v@.len() ==> !is_ws(v@[ws_prefix(v@)]),
        decreases v.len() - a,
    {
        a += 1;
    }
    a
}

/// The whitespace-trimmed text of a string.
pub fn trim_str(s: &str) -> (r: String)
    ensures
        r@ == trim_v(s@),
{
    let t = trim_chars(&chars_of(s));
    string_of(&t)
}

/// Whether a string is empty once trimmed.
pub fn is_blank(s: &str) -> (r: bool)
    ensures
        r == (trim_v(s@).len() == 0),
{
    trim_str(s).as_str().unicode_len() == 0
}

/// The position of the first occurrence of `c` at or after `i`, if any.
pub open spec fn find_char_from(s: Seq<char>, c: char, i: int) -> Option<int>
    decreases s.len() - i,
{
    if i < 0 || i >= s.len() {
        None
    } else if s[i] == c {
        Some(i)
    } else {
        find_char_from(s, c, i + 1)
    }
}

pub proof fn lemma_find_char_from(s: Seq<char>, c: char, i: int)
    requires
        0 <= i <= s.len(),
    ensures
        match find_char_from(s, c, i) {
            Some(j) => i <= j < s.len() && s[j] == c && forall|k: int| i <= k < j ==> s[k] != c,
            None => forall|k: int| i <= k < s.len() ==> s[k] != c,
        },
    decreases s.len() - i,
{
    if i < s.len() && s[i] != c {
        lemma_find_char_from(s, c, i + 1);
    }
}

pub fn find_char(v: &[char], c: char, from: usize) -> (r: Option<usize>)
    requires
        from <= v@.len(),
    ensures
        match r {
            Some(j) => find_char_from(v@, c, from as int) == Some(j as int),
            None => find_char_from(v@, c, from as int) is None,
        },
{
    let mut i = from;
    while i < v.len()
        invariant
            from <= i <= v@.len(),
            find_char_from(v@, c, from as int) == find_char_from(v@, c, i as int),
        decreases v.len() - i,
    {
        if v[i] == c {
            return Some(i);
        }
        i += 1;
    }
    None
}

/// Whether `c` occurs in `v`.
pub fn has_char(v: &[char], c: char) -> (r: bool)
    ensures
        r == v@.contains(c),
{
    let mut i: usize = 0;
    while i < v.len()
        invariant
            i <= v@.len(),
            forall|k: int| 0 <= k < i ==> v@[k] != c,
        decreases v.len() - i,
    {
        if v[i] == c {
            assert(v@[i as int] == c);
            return true;
        }
        i += 1;
    }
    false
}

/// Whether a string slice holds this string.
pub fn contains_string(v: &[String], s: &str) -> (r: bool)
    ensures
        r == exists|k: int| 0 <= k < v@.len() && (#[trigger] v@[k])@ == s@,
{
    let mut i: usize = 0;
    while i < v.len()
        invariant
            i <= v@.len(),
            forall|k: int| 0 <= k < i ==> (#[trigger] v@[k])@ != s@,
        decreases v.len() - i,
    {
        if str_eq(v[i].as_str(), s) {
            return true;
        }
        i += 1;
    }
    false
}

/// The first `n` characters.
pub fn take_chars(v: &[char], n: usize) -> (r: Vec<char>)
    requires
        n <= v@.len(),
    ensures
        r@ == v@.subrange(0, n as int),
{
    let mut out: Vec<char> = Vec::new();
    let mut i: usize = 0;
    while i < n
        invariant
            i <= n <= v@.len(),
            out@ == v@.subrange(0, i as int),
        decreases n - i,
    {
        out.push(v[i]);
        i += 1;
        assert(out@ =~= v@.subrange(0, i as int));
    }
    out
}


// ---------------------------------------------------------------------------
// Decimal numbers
// ---------------------------------------------------------------------------

/// The digit character for `d < 10`.
pub open spec fn digit_char(d: nat) -> char {
    if d == 0 { '0' } else if d == 1 { '1' } else if d == 2 { '2' } else if d == 3 { '3' }
    else if d == 4 { '4' } else if d == 5 { '5' } else if d == 6 { '6' } else if d == 7 { '7' }
    else if d == 8 { '8' } else { '9' }
}

/// The value of a digit character.
pub open spec fn digit_val(c: char) -> nat {
    if c == '0' { 0 } else if c == '1' { 1 } else if c == '2' { 2 } else if c == '3' { 3 }
    else if c == '4' { 4 } else if c == '5' { 5 } else if c == '6' { 6 } else if c == '7' { 7 }
    else if c == '8' { 8 } else { 9 }
}

/// `n` written in decimal, without leading zeros.
pub open spec fn dec_v(n: nat) -> Seq<char>
    decreases n,
{
    if n < 10 {
        seq![digit_char(n)]
    } else {
        dec_v(n / 10).push(digit_char(n % 10))
    }
}

/// `n` in decimal, left-padded with zeros to at least `w` digits.
pub open spec fn dec_pad_v(n: nat, w: nat) -> Seq<char> {
    let d = dec_v(n);
    if d.len() >= w {
        d
    } else {
        Seq::new((w - d.len()) as nat, |i: int| '0') + d
    }
}

/// The value of a run of decimal digits.
pub open spec fn value_v(s: Seq<char>) -> nat
    decreases s.len(),
{
    if s.len() == 0 {
        0
    } else {
        value_v(s.drop_last()) * 10 + digit_val(s.last())
    }
}

/// Whether every character is an ASCII digit and there is at least one.
pub open spec fn is_digits(s: Seq<char>) -> bool {
    s.len() > 0 && forall|k: int| 0 <= k < s.len() ==> '0' <= #[trigger] s[k] <= '9'
}

fn digit_of(d: usize) -> (c: char)
    requires
        d < 10,
    ensures
        c == digit_char(d as nat),
{
    if d == 0 { '0' } else if d == 1 { '1' } else if d == 2 { '2' } else if d == 3 { '3' }
    else if d == 4 { '4' } else if d == 5 { '5' } else if d == 6 { '6' } else if d == 7 { '7' }
    else if d == 8 { '8' } else { '9' }
}

fn value_of_digit(c: char) -> (d: usize)
    ensures
        d == digit_val(c),
        d < 10,
{
    if c == '0' { 0 } else if c == '1' { 1 } else if c == '2' { 2 } else if c == '3' { 3 }
    else if c == '4' { 4 } else if c == '5' { 5 } else if c == '6' { 6 } else if c == '7' { 7 }
    else if c == '8' { 8 } else { 9 }
}

/// `n` written in decimal.
pub fn decimal(n: usize) -> (r: Vec<char>)
    ensures
        r@ == dec_v(n as nat),
    decreases n,
{
    if n < 10 {
        let mut v: Vec<char> = Vec::new();
        v.push(digit_of(n));
        assert(v@ =~= seq![digit_char(n as nat)]);
        v
    } else {
        let mut v = decimal(n / 10);
        v.push(digit_of(n % 10));
        v
    }
}

/// `n` in decimal, padded with zeros to at least `w` digits.
pub fn decimal_padded(n: usize, w: usize) -> (r: Vec<char>)
    ensures
        r@ == dec_pad_v(n as nat, w as nat),
{
    let d = decimal(n);
    if d.len() >= w {
        return d;
    }
    let pad = w - d.len();
    let mut out: Vec<char> = Vec::new();
    let mut i: usize = 0;
    while i < pad
        invariant
            i <= pad,
            out@ == Seq::new(i as nat, |k: int| '0'),
        decreases pad - i,
    {
        out.push('0');
        i += 1;
        assert(out@ =~= Seq::new(i as nat, |k: int| '0'));
    }
    let mut k: usize = 0;
    let ghost zeros = out@;
    while k < d.len()
        invariant
            k <= d@.len(),
            out@ == zeros + d@.take(k as int),
        decreases d.len() - k,
    {
        out.push(d[k]);
        k += 1;
        assert(out@ =~= zeros + d@.take(k as int));
    }
    assert(d@.take(d@.len() as int) =~= d@);
    out
}

/// `n` written in decimal, for a 64-bit number.
pub fn decimal_u64(n: u64) -> (r: Vec<char>)
    ensures
        r@ == dec_v(n as nat),
    decreases n,
{
    if n < 10 {
        let mut v: Vec<char> = Vec::new();
        v.push(digit_of(n as usize));
        assert(v@ =~= seq![digit_char(n as nat)]);
        v
    } else {
        let mut v = decimal_u64(n / 10);
        v.push(digit_of((n % 10) as usize));
        v
    }
}

/// A 64-bit `n` in decimal, padded with zeros to at least `w` digits.
pub fn decimal_padded_u64(n: u64, w: usize) -> (r: Vec<char>)
    ensures
        r@ == dec_pad_v(n as nat, w as nat),
{
    let d = decimal_u64(n);
    if d.len() >= w {
        return d;
    }
    let pad = w - d.len();
    let mut out: Vec<char> = Vec::new();
    let mut i: usize = 0;
    while i < pad
        invariant
            i <= pad,
            out@ == Seq::new(i as nat, |k: int| '0'),
        decreases pad - i,
    {
        out.push('0');
        i += 1;
        assert(out@ =~= Seq::new(i as nat, |k: int| '0'));
    }
    let mut k: usize = 0;
    let ghost zeros = out@;
    while k < d.len()
        invariant
            k <= d@.len(),
            out@ == zeros + d@.take(k as int),
        decreases d.len() - k,
    {
        out.push(d[k]);
        k += 1;
        assert(out@ =~= zeros + d@.take(k as int));
    }
    assert(d@.take(d@.len() as int) =~= d@);
    out
}

/// The value of `v[from..to]` when it is a non-empty run of digits that fits
/// in a `usize`.
pub fn parse_decimal(v: &[char], from: usize, to: usize) -> (r: Option<usize>)
    requires
        from <= to <= v@.len(),
    ensures
        match r {
            Some(n) => is_digits(v@.subrange(from as int, to as int)) && n as nat == value_v(v@.subrange(from as int, to as int)),
            None => !is_digits(v@.subrange(from as int, to as int)) || value_v(v@.subrange(from as int, to as int)) > usize::MAX,
        },
{
    if from == to {
        return None;
    }
    let mut acc: usize = 0;
    let mut i = from;
    let mut overflow = false;
    let ghost mut big: nat = 0;
    while i < to
        invariant
            from <= i <= to <= v@.len(),
            forall|k: int| from <= k < i ==> '0' <= #[trigger] v@[k] <= '9',
            big == value_v(v@.subrange(from as int, i as int)),
            !overflow ==> acc as nat == big,
            overflow ==> big > usize::MAX,
        decreases to - i,
    {
        let c = v[i];
        if !('0' <= c && c <= '9') {
            assert(v@.subrange(from as int, to as int)[i - from] == c);
            return None;
        }
        let d = value_of_digit(c);
        assert(v@.subrange(from as int, i + 1).drop_last() =~= v@.subrange(from as int, i as int));
        let ghost prev = big;
        proof {
            big = big * 10 + digit_val(c);
        }
        if !overflow {
            if acc > (usize::MAX - d) / 10 {
                overflow = true;
                assert(big > usize::MAX) by (nonlinear_arith)
                    requires acc > (usize::MAX - d) / 10, big == acc * 10 + d, d < 10;
            } else {
                assert(acc * 10 + d <= usize::MAX) by (nonlinear_arith)
                    requires acc <= (usize::MAX - d) / 10, d < 10;
                acc = acc * 10 + d;
            }
        } else {
            assert(big >= prev);
        }
        i += 1;
    }
    assert forall|k: int| 0 <= k < to - from implies '0' <= #[trigger] v@.subrange(from as int, to as int)[k] <= '9' by {
        assert(v@.subrange(from as int, to as int)[k] == v@[from + k]);
    }
    if overflow {
        None
    } else {
        Some(acc)
    }
}

} // verus!
