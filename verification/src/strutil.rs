//! Verified string helpers: prefix/suffix tests, ASCII case folding,
//! whitespace trimming, character search and replacement, concatenation,
//! and the lemmas relating them.
use vstd::prelude::*;

verus! {

/// ASCII whitespace, the class trimmed from lines and names.
pub open spec fn is_ws(c: char) -> bool {
    c == ' ' || c == '\t' || c == '\n' || c == '\r' || c == '\u{0C}'
}

/// ASCII lowercase of one character; other characters are unchanged.
pub open spec fn lower_char(c: char) -> char {
    if 'A' <= c && c <= 'Z' {
        ((c as u8) + 32) as char
    } else {
        c
    }
}

/// ASCII lowercase of a character sequence.
pub open spec fn to_lower(s: Seq<char>) -> Seq<char> {
    s.map_values(|c: char| lower_char(c))
}

/// Case-insensitive (ASCII) equality of character sequences.
pub open spec fn eq_ignore_case(a: Seq<char>, b: Seq<char>) -> bool {
    to_lower(a) == to_lower(b)
}

pub open spec fn starts_with(s: Seq<char>, p: Seq<char>) -> bool {
    p.len() <= s.len() && s.subrange(0, p.len() as int) == p
}

pub open spec fn ends_with(s: Seq<char>, p: Seq<char>) -> bool {
    p.len() <= s.len() && s.subrange(s.len() - p.len(), s.len() as int) == p
}

/// Index of the first character not satisfying `ws`, scanning from the left.
pub open spec fn trim_start_at(s: Seq<char>) -> int
    decreases s.len(),
{
    if s.len() == 0 {
        0
    } else if is_ws(s[0]) {
        1 + trim_start_at(s.skip(1))
    } else {
        0
    }
}

/// Index one past the last character not satisfying `ws`, scanning from the right.
pub open spec fn trim_end_at(s: Seq<char>) -> int
    decreases s.len(),
{
    if s.len() == 0 {
        0
    } else if is_ws(s[s.len() - 1]) {
        trim_end_at(s.take(s.len() - 1))
    } else {
        s.len() as int
    }
}

/// The sequence with leading and trailing ASCII whitespace removed.
pub open spec fn trim(s: Seq<char>) -> Seq<char> {
    let lo = trim_start_at(s);
    let hi = trim_end_at(s);
    if lo <= hi {
        s.subrange(lo, hi)
    } else {
        Seq::empty()
    }
}

/// The sequence with trailing ASCII whitespace removed.
pub open spec fn trim_end(s: Seq<char>) -> Seq<char> {
    s.take(trim_end_at(s))
}

/// Index of the first occurrence of `c` in `s`, if any.
pub open spec fn find_char(s: Seq<char>, c: char) -> Option<int>
    decreases s.len(),
{
    if s.len() == 0 {
        None
    } else if s[0] == c {
        Some(0int)
    } else {
        match find_char(s.skip(1), c) {
            Some(i) => Some(i + 1),
            None => None,
        }
    }
}

pub open spec fn contains_char(s: Seq<char>, c: char) -> bool {
    exists|i: int| 0 <= i < s.len() && s[i] == c
}

pub proof fn lemma_trim_start_at_bounds(s: Seq<char>)
    ensures
        0 <= trim_start_at(s) <= s.len(),
        forall|k: int| 0 <= k < trim_start_at(s) ==> is_ws(s[k]),
        trim_start_at(s) < s.len() ==> !is_ws(s[trim_start_at(s)]),
    decreases s.len(),
{
    if s.len() > 0 && is_ws(s[0]) {
        lemma_trim_start_at_bounds(s.skip(1));
        assert forall|k: int| 0 <= k < trim_start_at(s) implies is_ws(s[k]) by {
            if k > 0 {
                assert(s.skip(1)[k - 1] == s[k]);
            }
        }
        if trim_start_at(s) < s.len() {
            assert(s.skip(1)[trim_start_at(s) - 1] == s[trim_start_at(s)]);
        }
    }
}

pub proof fn lemma_trim_end_at_bounds(s: Seq<char>)
    ensures
        0 <= trim_end_at(s) <= s.len(),
        forall|k: int| trim_end_at(s) <= k < s.len() ==> is_ws(s[k]),
        trim_end_at(s) > 0 ==> !is_ws(s[trim_end_at(s) - 1]),
    decreases s.len(),
{
    if s.len() > 0 && is_ws(s[s.len() - 1]) {
        lemma_trim_end_at_bounds(s.take(s.len() - 1));
        assert forall|k: int| trim_end_at(s) <= k < s.len() implies is_ws(s[k]) by {
            if k < s.len() - 1 {
                assert(s.take(s.len() - 1)[k] == s[k]);
            }
        }
        if trim_end_at(s) > 0 {
            assert(s.take(s.len() - 1)[trim_end_at(s) - 1] == s[trim_end_at(s) - 1]);
        }
    }
}

/// `trim_start_at` is exactly the first index holding a non-whitespace character.
pub proof fn lemma_trim_start_at_is(s: Seq<char>, i: int)
    requires
        0 <= i <= s.len(),
        forall|k: int| 0 <= k < i ==> is_ws(s[k]),
        i < s.len() ==> !is_ws(s[i]),
        i == s.len() ==> forall|k: int| 0 <= k < s.len() ==> is_ws(s[k]),
    ensures
        trim_start_at(s) == i,
{
    lemma_trim_start_at_bounds(s);
    if trim_start_at(s) < i {
        assert(is_ws(s[trim_start_at(s)]));
    }
    if i < trim_start_at(s) {
        assert(is_ws(s[i]));
    }
}

pub proof fn lemma_trim_end_at_is(s: Seq<char>, j: int)
    requires
        0 <= j <= s.len(),
        forall|k: int| j <= k < s.len() ==> is_ws(s[k]),
        j > 0 ==> !is_ws(s[j - 1]),
    ensures
        trim_end_at(s) == j,
{
    lemma_trim_end_at_bounds(s);
    if trim_end_at(s) < j {
        assert(is_ws(s[j - 1]));
    }
    if j < trim_end_at(s) {
        assert(is_ws(s[trim_end_at(s) - 1]));
    }
}

/// Exec prefix test over character views.
pub fn str_starts_with(s: &str, p: &str) -> (b: bool)
    ensures
        b == starts_with(s@, p@),
{
    let n = s.unicode_len();
    let m = p.unicode_len();
    if m > n {
        return false;
    }
    let mut i: usize = 0;
    while i < m
        invariant
            0 <= i <= m,
            m <= n,
            n == s@.len(),
            m == p@.len(),
            forall|k: int| 0 <= k < i ==> s@[k] == p@[k],
        decreases m - i,
    {
        if s.get_char(i) != p.get_char(i) {
            assert(!starts_with(s@, p@)) by {
                assert(s@.subrange(0, p@.len() as int)[i as int] == s@[i as int]);
            }
            return false;
        }
        i += 1;
    }
    assert(s@.subrange(0, p@.len() as int) =~= p@);
    true
}

/// Exec suffix test over character views.
pub fn str_ends_with(s: &str, p: &str) -> (b: bool)
    ensures
        b == ends_with(s@, p@),
{
    let n = s.unicode_len();
    let m = p.unicode_len();
    if m > n {
        return false;
    }
    let off = n - m;
    let mut i: usize = 0;
    while i < m
        invariant
            0 <= i <= m,
            m <= n,
            off == n - m,
            n == s@.len(),
            m == p@.len(),
            forall|k: int| 0 <= k < i ==> s@[off + k] == p@[k],
        decreases m - i,
    {
        if s.get_char(off + i) != p.get_char(i) {
            assert(!ends_with(s@, p@)) by {
                assert(s@.subrange(s@.len() - p@.len(), s@.len() as int)[i as int] == s@[off + i]);
            }
            return false;
        }
        i += 1;
    }
    assert(s@.subrange(s@.len() - p@.len(), s@.len() as int) =~= p@);
    true
}

/// Exec case-insensitive suffix test (ASCII folding on both sides).
pub fn str_ends_with_ignore_case(s: &str, p: &str) -> (b: bool)
    ensures
        b == ends_with(to_lower(s@), to_lower(p@)),
{
    let n = s.unicode_len();
    let m = p.unicode_len();
    if m > n {
        return false;
    }
    let off = n - m;
    let mut i: usize = 0;
    while i < m
        invariant
            0 <= i <= m,
            m <= n,
            off == n - m,
            n == s@.len(),
            m == p@.len(),
            forall|k: int| 0 <= k < i ==> lower_char(s@[off + k]) == lower_char(p@[k]),
        decreases m - i,
    {
        if lower_char_exec(s.get_char(off + i)) != lower_char_exec(p.get_char(i)) {
            assert(!ends_with(to_lower(s@), to_lower(p@))) by {
                let ls = to_lower(s@);
                let lp = to_lower(p@);
                assert(ls.subrange(ls.len() - lp.len(), ls.len() as int)[i as int] == ls[off + i]);
            }
            return false;
        }
        i += 1;
    }
    assert(to_lower(s@).subrange(
        to_lower(s@).len() - to_lower(p@).len(),
        to_lower(s@).len() as int,
    ) =~= to_lower(p@));
    true
}

/// Exec ASCII lowercase of one character.
pub fn lower_char_exec(c: char) -> (r: char)
    ensures
        r == lower_char(c),
{
    if 'A' <= c && c <= 'Z' {
        (((c as u8) + 32) as char)
    } else {
        c
    }
}

/// Exec case-insensitive (ASCII) equality.
pub fn str_eq_ignore_case(a: &str, b: &str) -> (r: bool)
    ensures
        r == eq_ignore_case(a@, b@),
{
    let n = a.unicode_len();
    let m = b.unicode_len();
    if n != m {
        assert(to_lower(a@).len() != to_lower(b@).len());
        return false;
    }
    let mut i: usize = 0;
    while i < n
        invariant
            0 <= i <= n,
            n == a@.len(),
            n == b@.len(),
            forall|k: int| 0 <= k < i ==> lower_char(a@[k]) == lower_char(b@[k]),
        decreases n - i,
    {
        if lower_char_exec(a.get_char(i)) != lower_char_exec(b.get_char(i)) {
            assert(to_lower(a@)[i as int] != to_lower(b@)[i as int]);
            return false;
        }
        i += 1;
    }
    assert(to_lower(a@) =~= to_lower(b@));
    true
}

/// Exec trim: strips leading and trailing ASCII whitespace.
pub fn str_trim(s: &str) -> (r: &str)
    ensures
        r@ == trim(s@),
{
    let n = s.unicode_len();
    let mut lo: usize = 0;
    while lo < n && is_ws_exec(s.get_char(lo))
        invariant
            0 <= lo <= n,
            n == s@.len(),
            forall|k: int| 0 <= k < lo ==> is_ws(s@[k]),
        decreases n - lo,
    {
        lo += 1;
    }
    proof {
        lemma_trim_start_at_is(s@, lo as int);
    }
    let mut hi: usize = n;
    while hi > lo && is_ws_exec(s.get_char(hi - 1))
        invariant
            lo <= hi <= n,
            n == s@.len(),
            forall|k: int| 0 <= k < lo ==> is_ws(s@[k]),
            lo < n ==> !is_ws(s@[lo as int]),
            forall|k: int| hi <= k < n ==> is_ws(s@[k]),
        decreases hi,
    {
        hi -= 1;
    }
    proof {
        if hi > lo {
            lemma_trim_end_at_is(s@, hi as int);
        } else {
            // everything from lo on is whitespace, so the whole string is
            // whitespace up to lo and from lo on: trim is empty
            lemma_trim_end_at_bounds(s@);
            lemma_trim_start_at_bounds(s@);
            if trim_end_at(s@) > lo {
                assert(is_ws(s@[trim_end_at(s@) - 1]));
            }
            assert(trim(s@) =~= s@.subrange(lo as int, hi as int)) by {
                if trim_start_at(s@) <= trim_end_at(s@) {
                    assert(trim_end_at(s@) <= lo);
                    assert(s@.subrange(trim_start_at(s@), trim_end_at(s@)).len() == 0 || !is_ws(
                        s@[trim_start_at(s@)],
                    ));
                }
            }
        }
    }
    s.substring_char(lo, hi)
}

/// Exec trim of trailing ASCII whitespace only.
pub fn str_trim_end(s: &str) -> (r: &str)
    ensures
        r@ == trim_end(s@),
{
    let n = s.unicode_len();
    let mut hi: usize = n;
    while hi > 0 && is_ws_exec(s.get_char(hi - 1))
        invariant
            0 <= hi <= n,
            n == s@.len(),
            forall|k: int| hi <= k < n ==> is_ws(s@[k]),
        decreases hi,
    {
        hi -= 1;
    }
    proof {
        lemma_trim_end_at_is(s@, hi as int);
        assert(trim_end(s@) =~= s@.subrange(0, hi as int));
    }
    s.substring_char(0, hi)
}

/// Exec whitespace test.
pub fn is_ws_exec(c: char) -> (r: bool)
    ensures
        r == is_ws(c),
{
    c == ' ' || c == '\t' || c == '\n' || c == '\r' || c == '\u{0C}'
}

/// Exec first-occurrence search.
pub fn str_find_char(s: &str, c: char) -> (r: Option<usize>)
    ensures
        match r {
            Some(i) => find_char(s@, c) == Some(i as int),
            None => find_char(s@, c) is None,
        },
{
    let n = s.unicode_len();
    let mut i: usize = 0;
    while i < n
        invariant
            0 <= i <= n,
            n == s@.len(),
            forall|k: int| 0 <= k < i ==> s@[k] != c,
        decreases n - i,
    {
        if s.get_char(i) == c {
            proof {
                lemma_find_char_at(s@, c, i as int);
            }
            return Some(i);
        }
        i += 1;
    }
    proof {
        lemma_find_char_none(s@, c);
    }
    None
}

/// If `i` is the first index holding `c`, `find_char` returns it.
pub proof fn lemma_find_char_at(s: Seq<char>, c: char, i: int)
    requires
        0 <= i < s.len(),
        s[i] == c,
        forall|k: int| 0 <= k < i ==> s[k] != c,
    ensures
        find_char(s, c) == Some(i),
    decreases s.len(),
{
    if i > 0 {
        lemma_find_char_at(s.skip(1), c, i - 1);
    }
}

/// If no index holds `c`, `find_char` returns `None`.
pub proof fn lemma_find_char_none(s: Seq<char>, c: char)
    requires
        forall|k: int| 0 <= k < s.len() ==> s[k] != c,
    ensures
        find_char(s, c) is None,
    decreases s.len(),
{
    if s.len() > 0 {
        assert forall|k: int| 0 <= k < s.skip(1).len() implies s.skip(1)[k] != c by {
            assert(s.skip(1)[k] == s[k + 1]);
        }
        lemma_find_char_none(s.skip(1), c);
    }
}

/// `find_char` finds an occurrence, and the first one.
pub proof fn lemma_find_char_spec(s: Seq<char>, c: char)
    ensures
        match find_char(s, c) {
            Some(i) => 0 <= i < s.len() && s[i] == c && forall|k: int| 0 <= k < i ==> s[k] != c,
            None => forall|k: int| 0 <= k < s.len() ==> s[k] != c,
        },
    decreases s.len(),
{
    if s.len() > 0 && s[0] != c {
        lemma_find_char_spec(s.skip(1), c);
        assert(forall|k: int| 0 <= k < s.skip(1).len() ==> s.skip(1)[k] == s[k + 1]);
        match find_char(s.skip(1), c) {
            Some(i) => {
                assert(find_char(s, c) == Some(i + 1));
                assert(s[i + 1] == s.skip(1)[i]);
                assert forall|k: int| 0 <= k < i + 1 implies s[k] != c by {
                    if k > 0 {
                        assert(s[k] == s.skip(1)[k - 1]);
                    }
                }
            },
            None => {
                assert forall|k: int| 0 <= k < s.len() implies s[k] != c by {
                    if k > 0 {
                        assert(s[k] == s.skip(1)[k - 1]);
                    }
                }
            },
        }
    }
}

/// Substring copy as an owned `String`.
pub fn substring_string(s: &str, from: usize, to: usize) -> (r: String)
    requires
        from <= to <= s@.len(),
    ensures
        r@ == s@.subrange(from as int, to as int),
{
    let sub = s.substring_char(from, to);
    String::from_str(sub)
}

/// Concatenation of two string slices.
pub fn concat2(a: &str, b: &str) -> (r: String)
    ensures
        r@ == a@ + b@,
{
    let mut r = String::from_str(a);
    r.append(b);
    r
}

/// Concatenation of three string slices.
pub fn concat3(a: &str, b: &str, c: &str) -> (r: String)
    ensures
        r@ == a@ + b@ + c@,
{
    let mut r = String::from_str(a);
    r.append(b);
    r.append(c);
    r
}

/// The sequence with every occurrence of one character replaced by another.
pub open spec fn replace_char(s: Seq<char>, from: char, to: char) -> Seq<char> {
    s.map_values(
        |c: char|
            if c == from {
                to
            } else {
                c
            },
    )
}

/// Exec single-character replacement.
pub fn str_replace_char(s: &str, from: char, to_str: &str) -> (r: String)
    requires
        to_str@.len() == 1,
    ensures
        r@ == replace_char(s@, from, to_str@[0]),
{
    let n = s.unicode_len();
    let mut r = String::new();
    let mut i: usize = 0;
    proof {
        assert(r@ =~= replace_char(s@.take(0), from, to_str@[0]));
    }
    while i < n
        invariant
            0 <= i <= n,
            n == s@.len(),
            to_str@.len() == 1,
            r@ == replace_char(s@.take(i as int), from, to_str@[0]),
        decreases n - i,
    {
        if s.get_char(i) == from {
            r.append(to_str);
        } else {
            let piece = s.substring_char(i, i + 1);
            r.append(piece);
        }
        proof {
            assert(r@ =~= replace_char(s@.take(i + 1), from, to_str@[0]));
        }
        i += 1;
    }
    proof {
        assert(s@.take(n as int) =~= s@);
    }
    r
}

/// Appending a single space does not change the trailing-trim cut.
pub proof fn lemma_trim_end_at_append_ws(a: Seq<char>, c: char)
    requires
        is_ws(c),
    ensures
        trim_end_at(a + seq![c]) == trim_end_at(a),
        trim_end(a + seq![c]) == trim_end(a),
{
    let b = a + seq![c];
    assert(b.len() == a.len() + 1);
    assert(is_ws(b[b.len() - 1]));
    assert(b.take(b.len() - 1) =~= a);
    lemma_trim_end_at_bounds(a);
    assert(trim_end(b) =~= trim_end(a)) by {
        lemma_trim_end_at_bounds(a);
        assert(forall|k: int| 0 <= k < trim_end_at(a) ==> b[k] == a[k]);
    }
}

/// Trimming the end twice is the same as once.
pub proof fn lemma_trim_end_idempotent(a: Seq<char>)
    ensures
        trim_end(trim_end(a)) == trim_end(a),
{
    lemma_trim_end_at_bounds(a);
    let e = trim_end_at(a);
    let t = trim_end(a);
    if e > 0 {
        assert(t[e - 1] == a[e - 1]);
        lemma_trim_end_at_is(t, e);
    } else {
        assert(t.len() == 0);
        lemma_trim_end_at_is(t, 0);
    }
    assert(trim_end(t) =~= t);
}

/// A sequence that equals its own trim has no leading or trailing whitespace.
pub proof fn lemma_trim_fixpoint(a: Seq<char>)
    requires
        trim(a) == a,
    ensures
        trim_start_at(a) == 0,
        trim_end_at(a) == a.len(),
        trim_end(a) == a,
        a.len() > 0 ==> !is_ws(a[0]) && !is_ws(a[a.len() - 1]),
{
    lemma_trim_start_at_bounds(a);
    lemma_trim_end_at_bounds(a);
    let lo = trim_start_at(a);
    let hi = trim_end_at(a);
    if a.len() == 0 {
        assert(trim_end(a) =~= a);
    } else {
        if lo > hi {
            assert(trim(a).len() == 0);
        }
        assert(lo <= hi);
        assert(trim(a).len() == hi - lo);
        assert(lo == 0 && hi == a.len());
        assert(trim_end(a) =~= a);
    }
}

/// The first character of the trim of an extension of `u` is the first
/// character of the trim of `u`, provided `u` holds a non-whitespace
/// character.
pub proof fn lemma_trim_first_of_extension(u: Seq<char>, a: Seq<char>)
    requires
        u.len() <= a.len(),
        forall|j: int| 0 <= j < u.len() ==> a[j] == u[j],
        trim_start_at(u) < u.len(),
    ensures
        trim(a).len() > 0,
        trim(a)[0] == trim(u)[0],
        trim(u).len() > 0,
{
    lemma_trim_start_at_bounds(u);
    lemma_trim_start_at_bounds(a);
    lemma_trim_end_at_bounds(u);
    lemma_trim_end_at_bounds(a);
    let p = trim_start_at(u);
    assert(!is_ws(u[p]));
    assert forall|k: int| 0 <= k < p implies is_ws(a[k]) by {
        assert(a[k] == u[k]);
    }
    assert(a[p] == u[p]);
    lemma_trim_start_at_is(a, p);
    // the end cut lies beyond p in both sequences
    assert(trim_end_at(a) > p) by {
        if trim_end_at(a) <= p {
            assert(is_ws(a[p]));
        }
    }
    assert(trim_end_at(u) > p) by {
        if trim_end_at(u) <= p {
            assert(is_ws(u[p]));
        }
    }
    assert(trim(a)[0] == a[p]);
    assert(trim(u)[0] == u[p]);
}

/// Trimming ignores a single appended space.
pub proof fn lemma_trim_append_ws(a: Seq<char>, c: char)
    requires
        is_ws(c),
    ensures
        trim(a + seq![c]) == trim(a),
{
    let b = a + seq![c];
    lemma_trim_end_at_append_ws(a, c);
    lemma_trim_start_at_bounds(a);
    lemma_trim_end_at_bounds(a);
    let lo = trim_start_at(a);
    let hi = trim_end_at(a);
    if lo < a.len() {
        assert forall|k: int| 0 <= k < lo implies is_ws(b[k]) by {
            assert(b[k] == a[k]);
        }
        assert(b[lo] == a[lo]);
        lemma_trim_start_at_is(b, lo);
        if lo <= hi {
            assert(trim(b) =~= trim(a)) by {
                assert(forall|k: int| lo <= k < hi ==> b[k] == a[k]);
            }
        }
    } else {
        // `a` is all whitespace, so is `b`
        assert(forall|k: int| 0 <= k < a.len() ==> is_ws(a[k]));
        assert forall|k: int| 0 <= k < b.len() implies is_ws(b[k]) by {
            if k < a.len() {
                assert(b[k] == a[k]);
            }
        }
        lemma_trim_start_at_is(b, b.len() as int);
        assert(hi == 0) by {
            if hi > 0 {
                assert(!is_ws(a[hi - 1]));
            }
        }
        assert(trim(a).len() == 0);
        assert(trim(b).len() == 0);
        assert(trim(a) =~= trim(b));
    }
}

/// Trimming after a trailing trim is a full trim.
pub proof fn lemma_trim_of_trim_end(a: Seq<char>)
    ensures
        trim(trim_end(a)) == trim(a),
{
    lemma_trim_start_at_bounds(a);
    lemma_trim_end_at_bounds(a);
    let lo = trim_start_at(a);
    let hi = trim_end_at(a);
    let t = trim_end(a);
    assert(t.len() == hi);
    lemma_trim_end_idempotent(a);
    assert(trim_end_at(t) == t.len()) by {
        if hi > 0 {
            assert(t[hi - 1] == a[hi - 1]);
            lemma_trim_end_at_is(t, hi);
        } else {
            lemma_trim_end_at_is(t, 0);
        }
    }
    if lo < hi {
        assert forall|k: int| 0 <= k < lo implies is_ws(t[k]) by {
            assert(t[k] == a[k]);
        }
        assert(t[lo] == a[lo]);
        assert(!is_ws(a[lo])) by {
            if lo < a.len() {
            } else {
            }
        }
        lemma_trim_start_at_is(t, lo);
        assert(trim(t) =~= trim(a)) by {
            assert(forall|k: int| lo <= k < hi ==> t[k] == a[k]);
        }
    } else {
        // no non-whitespace before the cut: trim(a) is empty and t is all
        // whitespace up to hi <= lo
        assert forall|k: int| 0 <= k < t.len() implies is_ws(t[k]) by {
            assert(t[k] == a[k]);
            assert(k < lo);
        }
        lemma_trim_start_at_is(t, t.len() as int);
        if lo <= hi {
            assert(trim(a).len() == hi - lo);
            assert(hi == lo);
        }
        assert(trim(a).len() == 0);
        assert(trim(t).len() == 0) by {
            if trim_start_at(t) <= trim_end_at(t) {
                assert(trim_end_at(t) == t.len());
            }
        }
        assert(trim(a) =~= trim(t));
    }
}

/// Case folding leaves a non-letter unchanged, and only a letter can fold
/// to a letter.
pub proof fn lemma_lower_char_nonletter(c: char, p: char)
    requires
        !('A' <= p && p <= 'Z'),
        !('a' <= p && p <= 'z'),
        lower_char(c) == p,
    ensures
        c == p,
{
    if 'A' <= c && c <= 'Z' {
        assert('a' <= ((c as u8) + 32) as char <= 'z');
    }
}

} // verus!
