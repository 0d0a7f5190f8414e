//! Character-level helpers: whitespace trimming, ASCII case folding, and
//! string comparison, with spec-level counterparts.

use vstd::prelude::*;

verus! {

/// The Unicode `White_Space` set, as `str::trim` understands it.
pub open spec fn is_space(c: char) -> bool {
    let u = c as u32;
    ||| u == 0x09
    ||| u == 0x0A
    ||| u == 0x0B
    ||| u == 0x0C
    ||| u == 0x0D
    ||| u == 0x20
    ||| u == 0x85
    ||| u == 0xA0
    ||| u == 0x1680
    ||| (0x2000 <= u && u <= 0x200A)
    ||| u == 0x2028
    ||| u == 0x2029
    ||| u == 0x202F
    ||| u == 0x205F
    ||| u == 0x3000
}

pub fn is_space_char(c: char) -> (r: bool)
    ensures
        r == is_space(c),
{
    let u = c as u32;
    u == 0x09 || u == 0x0A || u == 0x0B || u == 0x0C || u == 0x0D || u == 0x20 || u == 0x85
        || u == 0xA0 || u == 0x1680 || (0x2000 <= u && u <= 0x200A) || u == 0x2028 || u == 0x2029
        || u == 0x202F || u == 0x205F || u == 0x3000
}

/// ASCII lower-casing of a single character; other characters are unchanged.
pub open spec fn lower_char(c: char) -> char {
    if 0x41 <= c as u32 && c as u32 <= 0x5A {
        ((c as u8) + 0x20) as char
    } else {
        c
    }
}

pub fn lower_char_exec(c: char) -> (r: char)
    ensures
        r == lower_char(c),
{
    let u = c as u32;
    if 0x41 <= u && u <= 0x5A {
        ((c as u8) + 0x20) as char
    } else {
        c
    }
}

/// ASCII upper-casing of a single character; other characters are unchanged.
pub open spec fn upper_char(c: char) -> char {
    if 0x61 <= c as u32 && c as u32 <= 0x7A {
        ((c as u8) - 0x20) as char
    } else {
        c
    }
}

pub fn upper_char_exec(c: char) -> (r: char)
    ensures
        r == upper_char(c),
{
    let u = c as u32;
    if 0x61 <= u && u <= 0x7A {
        ((c as u8) - 0x20) as char
    } else {
        c
    }
}

pub open spec fn ascii_lower(s: Seq<char>) -> Seq<char> {
    s.map_values(|c: char| lower_char(c))
}

pub open spec fn ascii_upper(s: Seq<char>) -> Seq<char> {
    s.map_values(|c: char| upper_char(c))
}

/// What `str::trim` leaves: the sequence with leading and trailing
/// whitespace removed.
pub open spec fn trimmed(s: Seq<char>) -> Seq<char>
    decreases s.len(),
{
    if s.len() == 0 {
        s
    } else if is_space(s.first()) {
        trimmed(s.subrange(1, s.len() as int))
    } else if is_space(s.last()) {
        trimmed(s.subrange(0, s.len() - 1))
    } else {
        s
    }
}

/// A string is blank when trimming leaves nothing of it.
pub open spec fn is_blank(s: Seq<char>) -> bool {
    trimmed(s).len() == 0
}

proof fn lemma_trimmed_all_space(s: Seq<char>)
    requires
        forall|i: int| 0 <= i < s.len() ==> is_space(s[i]),
    ensures
        trimmed(s).len() == 0,
    decreases s.len(),
{
    if s.len() > 0 {
        lemma_trimmed_all_space(s.subrange(1, s.len() as int));
    }
}

proof fn lemma_trimmed_subrange(s: Seq<char>, lo: int, hi: int)
    requires
        0 <= lo <= hi <= s.len(),
        forall|i: int| 0 <= i < lo ==> is_space(s[i]),
        forall|i: int| hi <= i < s.len() ==> is_space(s[i]),
        lo < hi ==> !is_space(s[lo]) && !is_space(s[hi - 1]),
        lo == hi ==> lo == 0 && hi == 0,
    ensures
        trimmed(s) == s.subrange(lo, hi),
    decreases s.len(),
{
    if lo == hi {
        lemma_trimmed_all_space(s);
        assert(trimmed(s) =~= s.subrange(lo, hi));
    } else if lo > 0 {
        let t = s.subrange(1, s.len() as int);
        lemma_trimmed_subrange(t, lo - 1, hi - 1);
        assert(t.subrange(lo - 1, hi - 1) =~= s.subrange(lo, hi));
    } else if hi < s.len() {
        let t = s.subrange(0, s.len() - 1);
        lemma_trimmed_subrange(t, lo, hi);
        assert(t.subrange(lo, hi) =~= s.subrange(lo, hi));
    } else {
        assert(trimmed(s) =~= s.subrange(lo, hi));
    }
}

/// Bounds of the non-whitespace core of `s`: `trimmed(s@)` is exactly
/// `s@.subrange(lo, hi)`.
pub fn trim_bounds(s: &str) -> (r: (usize, usize))
    ensures
        r.0 <= r.1 <= s@.len(),
        trimmed(s@) == s@.subrange(r.0 as int, r.1 as int),
{
    let n = s.unicode_len();
    let mut lo: usize = 0;
    while lo < n
        invariant
            lo <= n,
            n == s@.len(),
            forall|i: int| 0 <= i < lo ==> is_space(s@[i]),
        ensures
            lo <= n,
            n == s@.len(),
            forall|i: int| 0 <= i < lo ==> is_space(s@[i]),
            lo < n ==> !is_space(s@[lo as int]),
        decreases n - lo,
    {
        if !is_space_char(s.get_char(lo)) {
            break;
        }
        lo = lo + 1;
    }
    if lo == n {
        proof {
            lemma_trimmed_all_space(s@);
            assert(trimmed(s@) =~= s@.subrange(0, 0));
        }
        return (0, 0);
    }
    let mut hi: usize = n;
    while hi > lo + 1
        invariant
            lo < hi <= n,
            n == s@.len(),
            !is_space(s@[lo as int]),
            forall|i: int| hi <= i < s@.len() ==> is_space(s@[i]),
        ensures
            lo < hi <= n,
            n == s@.len(),
            forall|i: int| hi <= i < s@.len() ==> is_space(s@[i]),
            !is_space(s@[hi - 1]),
        decreases hi,
    {
        if !is_space_char(s.get_char(hi - 1)) {
            break;
        }
        hi = hi - 1;
    }
    proof {
        lemma_trimmed_subrange(s@, lo as int, hi as int);
    }
    (lo, hi)
}

/// Exact equality of two strings, by characters.
pub fn str_eq(a: &str, b: &str) -> (r: bool)
    ensures
        r == (a@ == b@),
{
    let n = a.unicode_len();
    if n != b.unicode_len() {
        return false;
    }
    let mut i: usize = 0;
    while i < n
        invariant
            i <= n,
            n == a@.len() == b@.len(),
            forall|j: int| 0 <= j < i ==> a@[j] == b@[j],
        decreases n - i,
    {
        if a.get_char(i) != b.get_char(i) {
            return false;
        }
        i = i + 1;
    }
    proof {
        assert(a@ =~= b@);
    }
    true
}

/// Does the range `[lo, hi)` of `s`, ASCII-lower-cased, spell `kw`?
pub fn range_eq_lower(s: &str, lo: usize, hi: usize, kw: &str) -> (r: bool)
    requires
        lo <= hi <= s@.len(),
    ensures
        r == (ascii_lower(s@.subrange(lo as int, hi as int)) == kw@),
{
    let m = kw.unicode_len();
    if hi - lo != m {
        return false;
    }
    let mut i: usize = 0;
    while i < m
        invariant
            i <= m,
            lo <= hi <= s@.len(),
            hi - lo == m == kw@.len(),
            forall|j: int| 0 <= j < i ==> lower_char(s@[lo + j]) == kw@[j],
        decreases m - i,
    {
        if lower_char_exec(s.get_char(lo + i)) != kw.get_char(i) {
            return false;
        }
        i = i + 1;
    }
    proof {
        assert(ascii_lower(s@.subrange(lo as int, hi as int)) =~= kw@);
    }
    true
}

/// Does `s`, ASCII-upper-cased, spell `kw`?
pub fn str_eq_upper(s: &str, kw: &str) -> (r: bool)
    ensures
        r == (ascii_upper(s@) == kw@),
{
    let n = s.unicode_len();
    if n != kw.unicode_len() {
        return false;
    }
    let mut i: usize = 0;
    while i < n
        invariant
            i <= n,
            n == s@.len() == kw@.len(),
            forall|j: int| 0 <= j < i ==> upper_char(s@[j]) == kw@[j],
        decreases n - i,
    {
        if upper_char_exec(s.get_char(i)) != kw.get_char(i) {
            return false;
        }
        i = i + 1;
    }
    proof {
        assert(ascii_upper(s@) =~= kw@);
    }
    true
}

/// Is every character of `s` whitespace (so that trimming leaves nothing)?
pub fn str_is_blank(s: &str) -> (r: bool)
    ensures
        r == is_blank(s@),
{
    let (lo, hi) = trim_bounds(s);
    lo == hi
}

} // verus!
