//! Actor tokens and the shape of minted task IDs.
//!
//! A top-level ID is `PREFIX-` followed by a number: three digits wide in the
//! null namespace (`M-007`), and after the actor's token, unpadded, in a
//! tokened namespace (`M-a7`). A child ID extends its parent's with a dot, the
//! token of the namespace that minted it, and a number (`M-007.2`,
//! `M-007.a1`).

use vstd::prelude::*;
use crate::text::{chars_of, decimal, decimal_padded, dec_v, dec_pad_v, is_digits, value_v,
    parse_decimal, seq_starts_with, starts_with, string_of, push_str, find_char_from, find_char,
    lemma_find_char_from, substring};
use crate::refs::{split_v, split_chars};

verus! {

/// Whether a string is a well-formed actor token: one or more lowercase ASCII
/// letters.
pub open spec fn token_shape(s: Seq<char>) -> bool {
    s.len() > 0 && forall|k: int| 0 <= k < s.len() ==> 'a' <= #[trigger] s[k] <= 'z'
}

/// The word that names the primary namespace, which no token may take.
pub open spec fn null_word() -> Seq<char> {
    seq!['n', 'u', 'l', 'l']
}

/// An actor token: the namespace a working copy mints IDs in.
#[derive(Debug)]
pub struct Token {
    text: String,
}

impl Token {
    #[verifier::type_invariant]
    spec fn well_spelled(self) -> bool {
        token_shape(self.text@)
    }
}

impl Clone for Token {
    fn clone(&self) -> (r: Self)
        ensures
            r@ == self@,
    {
        self.duplicate()
    }
}

impl View for Token {
    type V = Seq<char>;

    closed spec fn view(&self) -> Seq<char> {
        self.text@
    }
}

/// Check a token's spelling: `Ok` for lowercase ASCII letters, the reason
/// otherwise.
pub fn validate_token(s: &str) -> (r: Result<(), String>)
    ensures
        r is Ok <==> token_shape(s@),
{
    let cs = chars_of(s);
    if cs.len() == 0 {
        return Err(String::from_str("a token cannot be empty"));
    }
    let mut i: usize = 0;
    while i < cs.len()
        invariant
            i <= cs@.len(),
            cs@ == s@,
            forall|k: int| 0 <= k < i ==> 'a' <= #[trigger] cs@[k] <= 'z',
        decreases cs.len() - i,
    {
        if !('a' <= cs[i] && cs[i] <= 'z') {
            let mut msg = String::from_str("invalid token '");
            push_str(&mut msg, s);
            push_str(&mut msg, "': use lowercase letters only");
            return Err(msg);
        }
        i += 1;
    }
    Ok(())
}

impl Token {
    /// A token spelled `s`, when `s` is well formed and is not the reserved
    /// word `null`.
    pub fn new(s: &str) -> (r: Option<Token>)
        ensures
            r is Some <==> (token_shape(s@) && s@ != null_word()),
            r matches Some(t) ==> t@ == s@,
    {
        if validate_token(s).is_err() {
            return None;
        }
        let cs = chars_of(s);
        proof { reveal_strlit("null"); }
        let null = chars_of("null");
        assert(null@ =~= null_word());
        if crate::text::seq_eq(&cs, &null) {
            return None;
        }
        Some(Token { text: string_of(&cs) })
    }

    /// The token's spelling.
    pub fn as_str(&self) -> (r: &str)
        ensures
            r@ == self@,
            token_shape(r@),
    {
        proof { use_type_invariant(self); }
        self.text.as_str()
    }

    /// An independent copy.
    pub fn duplicate(&self) -> (r: Token)
        ensures
            r@ == self@,
    {
        proof { use_type_invariant(self); }
        Token { text: string_of(&chars_of(self.text.as_str())) }
    }
}

/// The spelling of an optional token, empty for the null namespace.
pub open spec fn tok_v(token: Option<&Token>) -> Seq<char> {
    match token {
        Some(t) => t@,
        None => Seq::empty(),
    }
}

/// What every top-level ID of a namespace starts with: `M-` or `M-a`. `tok`
/// is the token's spelling, empty for the null namespace.
pub open spec fn stem(prefix: Seq<char>, tok: Seq<char>) -> Seq<char> {
    prefix.push('-') + tok
}

/// The top-level ID carrying number `n` in a namespace.
pub open spec fn with_number_v(prefix: Seq<char>, n: nat, tok: Seq<char>) -> Seq<char> {
    if tok.len() == 0 {
        stem(prefix, tok) + dec_pad_v(n, 3)
    } else {
        stem(prefix, tok) + dec_v(n)
    }
}

/// What every child ID minted under `parent` in a namespace starts with.
pub open spec fn child_stem(parent: Seq<char>, tok: Seq<char>) -> Seq<char> {
    parent.push('.') + tok
}

/// The child ID carrying number `n` under `parent` in a namespace.
pub open spec fn child_of_v(parent: Seq<char>, n: nat, tok: Seq<char>) -> Seq<char> {
    child_stem(parent, tok) + dec_v(n)
}

/// The number an ID carries after `stem`: the rest of the ID when it is a
/// run of digits that fits a `usize`.
pub open spec fn suffix_number(id: Seq<char>, stem: Seq<char>) -> Option<nat> {
    if starts_with(id, stem) {
        let rest = id.subrange(stem.len() as int, id.len() as int);
        if is_digits(rest) && value_v(rest) <= usize::MAX {
            Some(value_v(rest))
        } else {
            None
        }
    } else {
        None
    }
}

/// The stem of a namespace as a string.
pub fn stem_of(prefix: &str, token: Option<&Token>) -> (r: String)
    ensures
        r@ == stem(prefix@, tok_v(token)),
{
    let mut s = String::from_str(prefix);
    s.push('-');
    match token {
        Some(t) => push_str(&mut s, t.as_str()),
        None => {
            assert(s@ + Seq::<char>::empty() =~= s@);
        },
    }
    s
}

/// The top-level ID carrying number `n` in a namespace: `M-007`, or `M-a7`
/// in token `a`'s.
pub fn with_number(prefix: &str, n: usize, token: Option<&Token>) -> (r: String)
    ensures
        r@ == with_number_v(prefix@, n as nat, tok_v(token)),
{
    let mut s = stem_of(prefix, token);
    let digits = match token {
        Some(t) => {
            let _ = t.as_str();
            decimal(n)
        },
        None => decimal_padded(n, 3),
    };
    push_str(&mut s, string_of(&digits).as_str());
    s
}

/// The child ID carrying number `n` under `parent` in a namespace:
/// `M-007.2`, or `M-007.a2` in token `a`'s.
pub fn child_of(parent: &str, n: usize, token: Option<&Token>) -> (r: String)
    ensures
        r@ == child_of_v(parent@, n as nat, tok_v(token)),
{
    let mut s = String::from_str(parent);
    s.push('.');
    match token {
        Some(t) => push_str(&mut s, t.as_str()),
        None => {
            assert(s@ + Seq::<char>::empty() =~= s@);
        },
    }
    push_str(&mut s, string_of(&decimal(n)).as_str());
    s
}

/// The number an ID carries after `stem` (see [`suffix_number`]).
pub fn suffix_number_of(id: &str, stem: &str) -> (r: Option<usize>)
    ensures
        match r {
            Some(n) => suffix_number(id@, stem@) == Some(n as nat),
            None => suffix_number(id@, stem@) is None,
        },
{
    let cs = chars_of(id);
    let st = chars_of(stem);
    if !seq_starts_with(&cs, &st) {
        return None;
    }
    parse_decimal(&cs, st.len(), cs.len())
}

// ---------------------------------------------------------------------------
// The grammar of structured IDs
// ---------------------------------------------------------------------------

/// How many lowercase letters a string starts with.
pub open spec fn letters_v(s: Seq<char>) -> nat
    decreases s.len(),
{
    if s.len() == 0 || !('a' <= s[0] && s[0] <= 'z') {
        0
    } else {
        1 + letters_v(s.drop_first())
    }
}

/// Whether a segment is a token (lowercase letters, possibly none) followed
/// by a number (one or more digits).
pub open spec fn seg_ok(s: Seq<char>) -> bool {
    letters_v(s) < s.len() && is_digits(s.subrange(letters_v(s) as int, s.len() as int))
}

/// Whether an ID is structured: a non-empty prefix, a `-`, and one or more
/// dot-separated segments.
pub open spec fn structured(id: Seq<char>) -> bool {
    match find_char_from(id, '-', 0) {
        Some(d) => d > 0 && forall|k: int| 0 <= k < split_v(id.subrange(d + 1, id.len() as int), '.').len()
            ==> seg_ok(#[trigger] split_v(id.subrange(d + 1, id.len() as int), '.')[k]),
        None => false,
    }
}

/// Whether `id` is a direct child ID of `parent`: the parent's ID, a dot,
/// and one segment.
pub open spec fn child_of_id(id: Seq<char>, parent: Seq<char>) -> bool {
    let p = parent.push('.');
    starts_with(id, p) && seg_ok(id.subrange(p.len() as int, id.len() as int))
}

pub(crate) proof fn lemma_letters(s: Seq<char>)
    ensures
        letters_v(s) <= s.len(),
        forall|k: int| 0 <= k < letters_v(s) ==> 'a' <= #[trigger] s[k] <= 'z',
        letters_v(s) < s.len() ==> !('a' <= s[letters_v(s) as int] && s[letters_v(s) as int] <= 'z'),
    decreases s.len(),
{
    if s.len() > 0 && 'a' <= s[0] && s[0] <= 'z' {
        lemma_letters(s.drop_first());
        assert forall|k: int| 0 <= k < letters_v(s) implies 'a' <= #[trigger] s[k] <= 'z' by {
            if k > 0 {
                assert(s[k] == s.drop_first()[k - 1]);
            }
        }
    }
}

/// How many lowercase letters a segment starts with (see [`letters_v`]).
pub(crate) fn letters_count(s: &[char]) -> (r: usize)
    ensures
        r as nat == letters_v(s@),
        r <= s@.len(),
{
    proof { lemma_letters(s@); }
    let mut i: usize = 0;
    while i < s.len() && 'a' <= s[i] && s[i] <= 'z'
        invariant
            i <= s@.len(),
            i <= letters_v(s@),
            letters_v(s@) <= s@.len(),
            forall|k: int| 0 <= k < letters_v(s@) ==> 'a' <= #[trigger] s@[k] <= 'z',
            letters_v(s@) < s@.len() ==> !('a' <= s@[letters_v(s@) as int] && s@[letters_v(s@) as int] <= 'z'),
        decreases s.len() - i,
    {
        i += 1;
    }
    i
}

/// Whether a segment is well formed (see [`seg_ok`]).
pub fn seg_ok_exec(s: &[char]) -> (r: bool)
    ensures
        r == seg_ok(s@),
{
    proof { lemma_letters(s@); }
    let mut i: usize = 0;
    while i < s.len() && 'a' <= s[i] && s[i] <= 'z'
        invariant
            i <= s@.len(),
            i <= letters_v(s@),
            letters_v(s@) <= s@.len(),
            forall|k: int| 0 <= k < letters_v(s@) ==> 'a' <= #[trigger] s@[k] <= 'z',
            letters_v(s@) < s@.len() ==> !('a' <= s@[letters_v(s@) as int] && s@[letters_v(s@) as int] <= 'z'),
        decreases s.len() - i,
    {
        i += 1;
    }
    if i >= s.len() {
        return false;
    }
    {
        let mut j = i;
        let mut all = true;
        while j < s.len()
            invariant
                i <= j <= s@.len(),
                all == forall|k: int| i <= k < j ==> '0' <= #[trigger] s@[k] <= '9',
            decreases s.len() - j,
        {
            if !('0' <= s[j] && s[j] <= '9') {
                all = false;
            }
            j += 1;
        }
        assert(all == is_digits(s@.subrange(i as int, s@.len() as int))) by {
            if all {
                assert forall|k: int| 0 <= k < s@.len() - i implies '0' <= #[trigger] s@.subrange(i as int, s@.len() as int)[k] <= '9' by {
                    assert(s@.subrange(i as int, s@.len() as int)[k] == s@[i + k]);
                }
            } else {
                let k = choose|k: int| i <= k < j && !('0' <= #[trigger] s@[k] <= '9');
                assert(s@.subrange(i as int, s@.len() as int)[k - i] == s@[k]);
            }
        }
        all
    }
}

/// Whether an ID is structured (see [`structured`]).
pub fn is_structured(id: &str) -> (r: bool)
    ensures
        r == structured(id@),
{
    let cs = chars_of(id);
    proof { lemma_find_char_from(cs@, '-', 0); }
    let d = match find_char(&cs, '-', 0) {
        Some(d) => d,
        None => {
            return false;
        },
    };
    if d == 0 {
        return false;
    }
    assert(d < cs.len());
    let rest = chars_of(substring(&cs, d + 1, cs.len()).as_str());
    assert(rest@ =~= id@.subrange(d + 1, id@.len() as int));
    let parts = split_chars(&rest, '.');
    let ghost pv = parts@.map_values(|x: Vec<char>| x@);
    let mut k: usize = 0;
    while k < parts.len()
        invariant
            k <= parts@.len(),
            pv == parts@.map_values(|x: Vec<char>| x@),
            pv == split_v(rest@, '.'),
            rest@ == id@.subrange(d + 1, id@.len() as int),
            cs@ == id@,
            find_char_from(cs@, '-', 0) == Some(d as int),
            d > 0,
            forall|q: int| 0 <= q < k ==> seg_ok(#[trigger] pv[q]),
        decreases parts.len() - k,
    {
        if !seg_ok_exec(parts[k].as_slice()) {
            assert(!seg_ok(split_v(id@.subrange(d + 1, id@.len() as int), '.')[k as int]));
            return false;
        }
        k += 1;
    }
    true
}

/// Whether `id` is a direct child ID of `parent` (see [`child_of_id`]).
pub fn is_child_of(id: &str, parent: &str) -> (r: bool)
    ensures
        r == child_of_id(id@, parent@),
{
    let cs = chars_of(id);
    let mut p = String::from_str(parent);
    p.push('.');
    let pc = chars_of(p.as_str());
    if !seq_starts_with(&cs, &pc) {
        return false;
    }
    let rest = chars_of(substring(&cs, pc.len(), cs.len()).as_str());
    seg_ok_exec(&rest)
}

} // verus!
