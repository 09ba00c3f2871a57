//! Character-level text utilities: conversions between `String` and
//! `Vec<char>`, lexicographic comparison, SQL LIKE matching, ASCII case
//! folding and token extraction for command words.

use vstd::prelude::*;

verus! {

/// Copies the characters of a string slice into a vector.
pub fn str_to_chars(s: &str) -> (out: Vec<char>)
    ensures
        out@ == s@,
{
    let n = s.unicode_len();
    let mut out: Vec<char> = Vec::new();
    let mut i: usize = 0;
    while i < n
        invariant
            n == s@.len(),
            i <= n,
            out@ =~= s@.take(i as int),
        decreases n - i,
    {
        out.push(s.get_char(i));
        proof {
            assert(out@ =~= s@.take(i + 1));
        }
        i = i + 1;
    }
    proof {
        assert(s@.take(n as int) =~= s@);
    }
    out
}

/// Relies on `String`'s `FromIterator` impl: collecting chars builds the
/// string whose characters are exactly those chars, in order.
#[verifier::external_body]
pub fn chars_to_string(v: &Vec<char>) -> (s: String)
    ensures
        s@ == v@,
{
    v.iter().collect()
}

/// True when the vector holds exactly the characters of `lit`.
pub fn chars_eq_str(v: &Vec<char>, lit: &str) -> (r: bool)
    ensures
        r == (v@ == lit@),
{
    let n = lit.unicode_len();
    if v.len() != n {
        proof {
            assert(v@.len() != lit@.len());
        }
        return false;
    }
    let mut i: usize = 0;
    while i < n
        invariant
            n == lit@.len(),
            n == v@.len(),
            i <= n,
            forall|j: int| 0 <= j < i ==> v@[j] == lit@[j],
        decreases n - i,
    {
        if v[i] != lit.get_char(i) {
            return false;
        }
        i = i + 1;
    }
    proof {
        assert(v@ =~= lit@);
    }
    true
}

/// Strict lexicographic order on character sequences, by code point.
pub open spec fn lex_lt(a: Seq<char>, b: Seq<char>) -> bool
    decreases a.len(),
{
    if b.len() == 0 {
        false
    } else if a.len() == 0 {
        true
    } else if a[0] != b[0] {
        a[0] < b[0]
    } else {
        lex_lt(a.skip(1), b.skip(1))
    }
}

proof fn lemma_lex_lt_prefix(a: Seq<char>, b: Seq<char>, i: int)
    requires
        0 <= i <= a.len(),
        i <= b.len(),
        forall|j: int| 0 <= j < i ==> a[j] == b[j],
    ensures
        lex_lt(a, b) == lex_lt(a.skip(i), b.skip(i)),
    decreases i,
{
    if i == 0 {
        assert(a.skip(0) =~= a);
        assert(b.skip(0) =~= b);
    } else {
        assert(a[0] == b[0]);
        lemma_lex_lt_prefix(a.skip(1), b.skip(1), i - 1);
        assert(a.skip(1).skip(i - 1) =~= a.skip(i));
        assert(b.skip(1).skip(i - 1) =~= b.skip(i));
        assert(forall|j: int| 0 <= j < i - 1 ==> a.skip(1)[j] == b.skip(1)[j]);
    }
}

/// Compares two character vectors lexicographically.
pub fn chars_lt(a: &Vec<char>, b: &Vec<char>) -> (r: bool)
    ensures
        r == lex_lt(a@, b@),
{
    let mut i: usize = 0;
    loop
        invariant
            i <= a.len(),
            i <= b.len(),
            forall|j: int| 0 <= j < i ==> a@[j] == b@[j],
        decreases a.len() - i,
    {
        proof {
            lemma_lex_lt_prefix(a@, b@, i as int);
        }
        if i >= b.len() {
            proof {
                assert(b@.skip(i as int).len() == 0);
            }
            return false;
        }
        if i >= a.len() {
            proof {
                assert(a@.skip(i as int).len() == 0);
                assert(b@.skip(i as int).len() > 0);
            }
            return true;
        }
        if a[i] != b[i] {
            proof {
                assert(a@.skip(i as int)[0] == a@[i as int]);
                assert(b@.skip(i as int)[0] == b@[i as int]);
            }
            return a[i] < b[i];
        }
        i = i + 1;
    }
}

/// Classic SQL LIKE semantics, case-sensitive: `%` matches any run of
/// characters and `_` matches exactly one character.
pub open spec fn like_match(t: Seq<char>, p: Seq<char>) -> bool
    decreases p.len(), t.len(),
{
    if p.len() == 0 {
        t.len() == 0
    } else if p[0] == '%' {
        like_match(t, p.skip(1)) || (t.len() > 0 && like_match(t.skip(1), p))
    } else if t.len() == 0 {
        false
    } else if p[0] == '_' {
        like_match(t.skip(1), p.skip(1))
    } else {
        p[0] == t[0] && like_match(t.skip(1), p.skip(1))
    }
}

fn like_rec(t: &Vec<char>, p: &Vec<char>, ti: usize, pi: usize) -> (r: bool)
    requires
        ti <= t.len(),
        pi <= p.len(),
    ensures
        r == like_match(t@.skip(ti as int), p@.skip(pi as int)),
    decreases p.len() - pi, t.len() - ti,
{
    proof {
        if pi < p@.len() {
            assert(p@.skip(pi as int)[0] == p@[pi as int]);
            assert(p@.skip(pi as int).skip(1) =~= p@.skip(pi + 1));
        }
        if ti < t@.len() {
            assert(t@.skip(ti as int)[0] == t@[ti as int]);
            assert(t@.skip(ti as int).skip(1) =~= t@.skip(ti + 1));
        }
    }
    if pi >= p.len() {
        ti >= t.len()
    } else if p[pi] == '%' {
        if like_rec(t, p, ti, pi + 1) {
            true
        } else if ti < t.len() {
            like_rec(t, p, ti + 1, pi)
        } else {
            false
        }
    } else if ti >= t.len() {
        false
    } else if p[pi] == '_' {
        like_rec(t, p, ti + 1, pi + 1)
    } else {
        if p[pi] == t[ti] {
            like_rec(t, p, ti + 1, pi + 1)
        } else {
            false
        }
    }
}

/// Whether the text matches the LIKE pattern.
pub fn like_matches(text: &Vec<char>, pattern: &Vec<char>) -> (r: bool)
    ensures
        r == like_match(text@, pattern@),
{
    let r = like_rec(text, pattern, 0, 0);
    proof {
        assert(text@.skip(0) =~= text@);
        assert(pattern@.skip(0) =~= pattern@);
    }
    r
}

/// ASCII case folding of one character.
pub open spec fn lower_char(c: char) -> char {
    if 'A' <= c && c <= 'Z' {
        ((c as int) + 32) as char
    } else {
        c
    }
}

pub open spec fn lower(s: Seq<char>) -> Seq<char> {
    s.map_values(|c: char| lower_char(c))
}

/// ASCII-lowers every character of the vector.
pub fn to_lower(v: &Vec<char>) -> (out: Vec<char>)
    ensures
        out@ == lower(v@),
{
    let mut out: Vec<char> = Vec::new();
    let mut i: usize = 0;
    while i < v.len()
        invariant
            i <= v.len(),
            out@ =~= lower(v@.take(i as int)),
        decreases v.len() - i,
    {
        let c = v[i];
        let lc: char = if c >= 'A' && c <= 'Z' {
            let b: u8 = c as u8;
            proof {
                assert(b as int == c as int);
                assert((b + 32) as char == lower_char(c));
            }
            (b + 32) as char
        } else {
            c
        };
        out.push(lc);
        proof {
            assert(lower(v@.take(i + 1)) =~= lower(v@.take(i as int)).push(lower_char(v@[i as int])));
        }
        i = i + 1;
    }
    proof {
        assert(v@.take(v@.len() as int) =~= v@);
    }
    out
}

/// Index of the first occurrence of `c` in `s`, or `s.len()` when there is
/// none.
pub open spec fn first_occ(s: Seq<char>, c: char) -> int
    decreases s.len(),
{
    if s.len() == 0 {
        0
    } else if s[0] == c {
        0
    } else {
        1 + first_occ(s.skip(1), c)
    }
}

pub proof fn lemma_first_occ_bounds(s: Seq<char>, c: char)
    ensures
        0 <= first_occ(s, c) <= s.len(),
        first_occ(s, c) < s.len() ==> s[first_occ(s, c)] == c,
        forall|j: int| 0 <= j < first_occ(s, c) ==> s[j] != c,
    decreases s.len(),
{
    if s.len() > 0 && s[0] != c {
        lemma_first_occ_bounds(s.skip(1), c);
        assert forall|j: int| 0 <= j < first_occ(s, c) implies s[j] != c by {
            if j > 0 {
                assert(s.skip(1)[j - 1] != c);
            }
        }
    }
}

pub proof fn lemma_first_occ_unique(s: Seq<char>, c: char, k: int)
    requires
        0 <= k <= s.len(),
        k < s.len() ==> s[k] == c,
        forall|j: int| 0 <= j < k ==> s[j] != c,
    ensures
        first_occ(s, c) == k,
    decreases s.len(),
{
    if s.len() > 0 && s[0] != c {
        assert(k > 0);
        lemma_first_occ_unique(s.skip(1), c, k - 1);
    }
}

/// Index of the first space in `s`, or `s.len()` when there is none.
pub open spec fn first_space(s: Seq<char>) -> int {
    first_occ(s, ' ')
}

/// Finds the index of the first occurrence of `c`, or the length when `c`
/// does not occur.
pub fn find_first(v: &Vec<char>, c: char) -> (r: usize)
    ensures
        r == first_occ(v@, c),
        r <= v@.len(),
        r < v@.len() ==> v@[r as int] == c,
        forall|j: int| 0 <= j < r ==> v@[j] != c,
{
    let mut i: usize = 0;
    while i < v.len() && v[i] != c
        invariant
            i <= v.len(),
            forall|j: int| 0 <= j < i ==> v@[j] != c,
        decreases v.len() - i,
    {
        i = i + 1;
    }
    proof {
        lemma_first_occ_unique(v@, c, i as int);
    }
    i
}

/// The first space-separated token of `s`.
pub open spec fn first_token(s: Seq<char>) -> Seq<char> {
    s.take(first_space(s))
}

/// What follows the first space of `s`, if any.
pub open spec fn after_first_space(s: Seq<char>) -> Option<Seq<char>> {
    if first_space(s) < s.len() {
        Some(s.skip(first_space(s) + 1))
    } else {
        None
    }
}

/// The second space-separated token of `s`, if a first space exists.
pub open spec fn second_token(s: Seq<char>) -> Option<Seq<char>> {
    match after_first_space(s) {
        Some(rest) => Some(first_token(rest)),
        None => None,
    }
}

/// Copies the characters of `v` between `from` and `to`.
pub fn sub_chars(v: &Vec<char>, from: usize, to: usize) -> (out: Vec<char>)
    requires
        from <= to <= v.len(),
    ensures
        out@ == v@.subrange(from as int, to as int),
{
    let mut out: Vec<char> = Vec::new();
    let mut i: usize = from;
    while i < to
        invariant
            from <= i <= to <= v.len(),
            out@ =~= v@.subrange(from as int, i as int),
        decreases to - i,
    {
        out.push(v[i]);
        proof {
            assert(out@ =~= v@.subrange(from as int, i + 1));
        }
        i = i + 1;
    }
    out
}

/// Splits off the first token: the characters before the first space, and
/// what follows the space when there is one.
pub fn split_first_token(v: &Vec<char>) -> (r: (Vec<char>, Option<Vec<char>>))
    ensures
        r.0@ == first_token(v@),
        match r.1 {
            Some(rest) => after_first_space(v@) == Some(rest@),
            None => after_first_space(v@) is None,
        },
{
    let mut i: usize = 0;
    while i < v.len() && v[i] != ' '
        invariant
            i <= v.len(),
            forall|j: int| 0 <= j < i ==> v@[j] != ' ',
        decreases v.len() - i,
    {
        i = i + 1;
    }
    proof {
        lemma_first_occ_unique(v@, ' ', i as int);
    }
    let mut tok: Vec<char> = Vec::new();
    let mut j: usize = 0;
    while j < i
        invariant
            j <= i <= v.len(),
            tok@ =~= v@.take(j as int),
        decreases i - j,
    {
        tok.push(v[j]);
        proof {
            assert(tok@ =~= v@.take(j + 1));
        }
        j = j + 1;
    }
    if i < v.len() {
        let mut rest: Vec<char> = Vec::new();
        let mut k: usize = i + 1;
        while k < v.len()
            invariant
                i + 1 <= k <= v.len(),
                rest@ =~= v@.subrange(i + 1, k as int),
            decreases v.len() - k,
        {
            rest.push(v[k]);
            proof {
                assert(rest@ =~= v@.subrange(i + 1, k + 1));
            }
            k = k + 1;
        }
        proof {
            assert(rest@ =~= v@.skip(i + 1));
        }
        (tok, Some(rest))
    } else {
        (tok, None)
    }
}

} // verus!
