//! Character-level scanning helpers shared by the line grammar: whitespace
//! skipping, token boundaries, literal comparison, substring search and
//! lexicographic ordering of names.

use vstd::prelude::*;

verus! {

/// Whitespace inside a line: space, tab, and carriage return (so that
/// reports with CRLF line endings read the same as LF ones).
pub open spec fn is_ws(c: char) -> bool {
    c == ' ' || c == '\t' || c == '\r'
}

/// A line is blank when every character is whitespace.
pub open spec fn is_blank(s: Seq<char>) -> bool {
    forall|i: int| 0 <= i < s.len() ==> is_ws(#[trigger] s[i])
}

/// Index of the first non-whitespace character at or after `i`, or `s.len()`.
pub open spec fn skip_ws(s: Seq<char>, i: int) -> int
    decreases s.len() - i,
{
    if i < 0 || i >= s.len() {
        s.len() as int
    } else if is_ws(s[i]) {
        skip_ws(s, i + 1)
    } else {
        i
    }
}

/// Index just past the token starting at `i`: the first whitespace character
/// at or after `i`, or `s.len()`.
pub open spec fn token_end(s: Seq<char>, i: int) -> int
    decreases s.len() - i,
{
    if i < 0 || i >= s.len() {
        s.len() as int
    } else if is_ws(s[i]) {
        i
    } else {
        token_end(s, i + 1)
    }
}

/// Index just past the last non-whitespace character of `s`.
pub open spec fn trim_end_idx(s: Seq<char>) -> int
    decreases s.len(),
{
    if s.len() == 0 {
        0
    } else if is_ws(s.last()) {
        trim_end_idx(s.drop_last())
    } else {
        s.len() as int
    }
}

pub proof fn lemma_skip_ws_bounds(s: Seq<char>, i: int)
    requires
        0 <= i <= s.len(),
    ensures
        i <= skip_ws(s, i) <= s.len(),
        skip_ws(s, i) < s.len() ==> !is_ws(s[skip_ws(s, i)]),
        forall|j: int| i <= j < skip_ws(s, i) ==> is_ws(#[trigger] s[j]),
    decreases s.len() - i,
{
    if i < s.len() && is_ws(s[i]) {
        lemma_skip_ws_bounds(s, i + 1);
    }
}

pub proof fn lemma_token_end_bounds(s: Seq<char>, i: int)
    requires
        0 <= i <= s.len(),
    ensures
        i <= token_end(s, i) <= s.len(),
        token_end(s, i) < s.len() ==> is_ws(s[token_end(s, i)]),
        forall|j: int| i <= j < token_end(s, i) ==> !is_ws(#[trigger] s[j]),
    decreases s.len() - i,
{
    if i < s.len() && !is_ws(s[i]) {
        lemma_token_end_bounds(s, i + 1);
    }
}

pub proof fn lemma_trim_end_bounds(s: Seq<char>)
    ensures
        0 <= trim_end_idx(s) <= s.len(),
        trim_end_idx(s) > 0 ==> !is_ws(s[trim_end_idx(s) - 1]),
        forall|j: int| trim_end_idx(s) <= j < s.len() ==> is_ws(#[trigger] s[j]),
    decreases s.len(),
{
    if s.len() > 0 && is_ws(s.last()) {
        lemma_trim_end_bounds(s.drop_last());
        assert forall|j: int| trim_end_idx(s) <= j < s.len() implies is_ws(#[trigger] s[j]) by {
            if j < s.len() - 1 {
                assert(s.drop_last()[j] == s[j]);
            }
        }
    }
}

/// Exec mirror of `skip_ws`.
pub fn find_non_ws(s: &Vec<char>, from: usize) -> (r: usize)
    requires
        from <= s.len(),
    ensures
        r == skip_ws(s@, from as int),
        from <= r <= s.len(),
{
    let mut i: usize = from;
    while i < s.len() && (s[i] == ' ' || s[i] == '\t' || s[i] == '\r')
        invariant
            from <= i <= s.len(),
            skip_ws(s@, from as int) == skip_ws(s@, i as int),
        decreases s.len() - i,
    {
        i = i + 1;
    }
    proof {
        lemma_skip_ws_bounds(s@, i as int);
    }
    i
}

/// Exec mirror of `token_end`.
pub fn find_token_end(s: &Vec<char>, from: usize) -> (r: usize)
    requires
        from <= s.len(),
    ensures
        r == token_end(s@, from as int),
        from <= r <= s.len(),
{
    let mut i: usize = from;
    while i < s.len() && !(s[i] == ' ' || s[i] == '\t' || s[i] == '\r')
        invariant
            from <= i <= s.len(),
            token_end(s@, from as int) == token_end(s@, i as int),
        decreases s.len() - i,
    {
        i = i + 1;
    }
    proof {
        lemma_token_end_bounds(s@, i as int);
    }
    i
}

/// Exec mirror of `trim_end_idx`.
pub fn find_trim_end(s: &Vec<char>) -> (r: usize)
    ensures
        r == trim_end_idx(s@),
        r <= s.len(),
{
    proof {
        assert(s@.subrange(0, s@.len() as int) =~= s@);
    }
    let mut i: usize = s.len();
    while i > 0 && (s[i - 1] == ' ' || s[i - 1] == '\t' || s[i - 1] == '\r')
        invariant
            0 <= i <= s.len(),
            trim_end_idx(s@) == trim_end_idx(s@.subrange(0, i as int)),
        decreases i,
    {
        proof {
            assert(s@.subrange(0, i as int).last() == s@[i - 1]);
            assert(s@.subrange(0, i as int).drop_last() =~= s@.subrange(0, i as int - 1));
        }
        i = i - 1;
    }
    proof {
        let t = s@.subrange(0, i as int);
        if i > 0 {
            assert(t.last() == s@[i - 1]);
            assert(trim_end_idx(t) == t.len());
        }
        assert(s@.subrange(0, s@.len() as int) =~= s@);
    }
    i
}

/// True exactly when `s[start..end)` equals the characters of `lit`.
pub fn range_eq_lit(s: &Vec<char>, start: usize, end: usize, lit: &str) -> (r: bool)
    requires
        start <= end <= s.len(),
    ensures
        r == (s@.subrange(start as int, end as int) == lit@),
{
    let n = lit.unicode_len();
    if end - start != n {
        proof {
            assert(s@.subrange(start as int, end as int).len() != lit@.len());
        }
        return false;
    }
    let mut i: usize = 0;
    while i < n
        invariant
            i <= n,
            n == lit@.len(),
            start <= end <= s.len(),
            end - start == n,
            forall|j: int| 0 <= j < i ==> s@.subrange(start as int, end as int)[j] == lit@[j],
        decreases n - i,
    {
        if s[start + i] != lit.get_char(i) {
            proof {
                assert(s@.subrange(start as int, end as int)[i as int] != lit@[i as int]);
            }
            return false;
        }
        i = i + 1;
    }
    proof {
        assert(s@.subrange(start as int, end as int) =~= lit@);
    }
    true
}

/// Whether character `c` occurs in `s`.
pub open spec fn seq_contains_char(s: Seq<char>, c: char) -> bool {
    exists|i: int| 0 <= i < s.len() && s[i] == c
}

/// Exec search for a single character.
pub fn range_contains_char(s: &Vec<char>, start: usize, end: usize, c: char) -> (r: bool)
    requires
        start <= end <= s.len(),
    ensures
        r == seq_contains_char(s@.subrange(start as int, end as int), c),
{
    let ghost sub = s@.subrange(start as int, end as int);
    let mut i: usize = start;
    while i < end
        invariant
            start <= i <= end <= s.len(),
            sub == s@.subrange(start as int, end as int),
            forall|j: int| 0 <= j < i - start ==> sub[j] != c,
        decreases end - i,
    {
        if s[i] == c {
            proof {
                assert(sub[i - start] == c);
            }
            return true;
        }
        i = i + 1;
    }
    false
}

/// Whether `pat` occurs as a contiguous run inside `s`.
pub open spec fn seq_contains_seq(s: Seq<char>, pat: Seq<char>) -> bool {
    exists|i: int| 0 <= i && i + pat.len() <= s.len() && #[trigger] s.subrange(i, i + pat.len()) == pat
}

/// Exec substring search: does `s[start..end)` contain the characters of `lit`?
pub fn range_contains_lit(s: &Vec<char>, start: usize, end: usize, lit: &str) -> (r: bool)
    requires
        start <= end <= s.len(),
    ensures
        r == seq_contains_seq(s@.subrange(start as int, end as int), lit@),
{
    let ghost sub = s@.subrange(start as int, end as int);
    let m = lit.unicode_len();
    if m > end - start {
        proof {
            assert forall|i: int| 0 <= i && i + lit@.len() <= sub.len() implies
                #[trigger] sub.subrange(i, i + lit@.len()) != lit@ by {}
        }
        return false;
    }
    if m == 0 {
        proof {
            assert(sub.subrange(0, 0 + lit@.len() as int) =~= lit@);
        }
        return true;
    }
    let mut i: usize = 0;
    let last = end - start - m;
    while i <= last
        invariant
            start <= end <= s.len(),
            m == lit@.len(),
            1 <= m <= end - start,
            last == end - start - m,
            i <= last + 1,
            sub == s@.subrange(start as int, end as int),
            forall|k: int| 0 <= k < i ==> #[trigger] sub.subrange(k, k + lit@.len()) != lit@,
        decreases last + 1 - i,
    {
        let mut j: usize = 0;
        let mut hit = true;
        while j < m
            invariant
                start <= end <= s.len(),
                m == lit@.len(),
                i + m <= end - start,
                j <= m,
                sub == s@.subrange(start as int, end as int),
                hit ==> forall|l: int| 0 <= l < j ==> sub[i + l] == lit@[l],
                !hit ==> sub.subrange(i as int, i + lit@.len()) != lit@,
            decreases m - j,
        {
            if s[start + i + j] != lit.get_char(j) {
                proof {
                    assert(sub.subrange(i as int, i + lit@.len())[j as int] != lit@[j as int]);
                }
                hit = false;
                j = m;
            } else {
                j = j + 1;
            }
        }
        if hit {
            proof {
                assert(sub.subrange(i as int, i + lit@.len()) =~= lit@);
            }
            return true;
        }
        i = i + 1;
    }
    proof {
        assert forall|k: int| 0 <= k && k + lit@.len() <= sub.len() implies
            #[trigger] sub.subrange(k, k + lit@.len()) != lit@ by {
            assert(k < i);
        }
    }
    false
}

/// Lexicographic order on character sequences: `a` is less than or equal to
/// `b` character by character, a proper prefix coming first.
pub open spec fn lex_le(a: Seq<char>, b: Seq<char>) -> bool
    decreases a.len(),
{
    if a.len() == 0 {
        true
    } else if b.len() == 0 {
        false
    } else if a[0] != b[0] {
        a[0] < b[0]
    } else {
        lex_le(a.subrange(1, a.len() as int), b.subrange(1, b.len() as int))
    }
}

pub proof fn lemma_lex_le_total(a: Seq<char>, b: Seq<char>)
    ensures
        lex_le(a, b) || lex_le(b, a),
        lex_le(a, b) && lex_le(b, a) ==> a == b,
    decreases a.len(),
{
    if a.len() != 0 && b.len() != 0 && a[0] == b[0] {
        lemma_lex_le_total(a.subrange(1, a.len() as int), b.subrange(1, b.len() as int));
        if lex_le(a, b) && lex_le(b, a) {
            assert(a =~= seq![a[0]] + a.subrange(1, a.len() as int));
            assert(b =~= seq![b[0]] + b.subrange(1, b.len() as int));
        }
    }
}

pub proof fn lemma_lex_le_trans(a: Seq<char>, b: Seq<char>, c: Seq<char>)
    requires
        lex_le(a, b),
        lex_le(b, c),
    ensures
        lex_le(a, c),
    decreases a.len(),
{
    if a.len() != 0 && b.len() != 0 && c.len() != 0 {
        if a[0] == b[0] && b[0] == c[0] {
            lemma_lex_le_trans(
                a.subrange(1, a.len() as int),
                b.subrange(1, b.len() as int),
                c.subrange(1, c.len() as int),
            );
        }
    }
}

/// Exec comparison realizing `lex_le`.
pub fn chars_lex_le(a: &Vec<char>, b: &Vec<char>) -> (r: bool)
    ensures
        r == lex_le(a@, b@),
{
    let n = if a.len() < b.len() {
        a.len()
    } else {
        b.len()
    };
    proof {
        assert(a@.skip(0) =~= a@);
        assert(b@.skip(0) =~= b@);
    }
    let mut i: usize = 0;
    while i < n
        invariant
            i <= n,
            n == if a@.len() < b@.len() {
                a@.len()
            } else {
                b@.len()
            },
            forall|j: int| 0 <= j < i ==> a@[j] == b@[j],
            lex_le(a@, b@) == lex_le(a@.skip(i as int), b@.skip(i as int)),
        decreases n - i,
    {
        let ca = a[i];
        let cb = b[i];
        proof {
            assert(a@.skip(i as int)[0] == a@[i as int]);
            assert(b@.skip(i as int)[0] == b@[i as int]);
            if ca == cb {
                assert(a@.skip(i as int).subrange(1, a@.skip(i as int).len() as int)
                    =~= a@.skip(i as int + 1));
                assert(b@.skip(i as int).subrange(1, b@.skip(i as int).len() as int)
                    =~= b@.skip(i as int + 1));
            }
        }
        if ca != cb {
            return ca < cb;
        }
        i = i + 1;
    }
    proof {
        if a@.len() <= b@.len() {
            assert(a@.skip(i as int).len() == 0);
        } else {
            assert(b@.skip(i as int).len() == 0);
            assert(a@.skip(i as int).len() > 0);
        }
    }
    a.len() <= b.len()
}

/// Exec equality of two character vectors.
pub fn chars_eq(a: &Vec<char>, b: &Vec<char>) -> (r: bool)
    ensures
        r == (a@ == b@),
{
    if a.len() != b.len() {
        return false;
    }
    let mut i: usize = 0;
    while i < a.len()
        invariant
            i <= a.len(),
            a.len() == b.len(),
            forall|j: int| 0 <= j < i ==> a@[j] == b@[j],
        decreases a.len() - i,
    {
        if a[i] != b[i] {
            return false;
        }
        i = i + 1;
    }
    proof {
        assert(a@ =~= b@);
    }
    true
}

} // verus!
