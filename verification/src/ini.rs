//! Structure-preserving key/value text-config patcher.
//!
//! A document is a sequence of raw text lines. A section begins at a line
//! whose comment-stripped, trimmed form is `[name]` and extends to the line
//! before the next such header (or end of document). Section and key
//! matching is ASCII case-insensitive. Mutations touch only the targeted
//! line; all other lines are preserved verbatim.
use vstd::prelude::*;

use crate::strutil::find_char;
use crate::strutil::trim;
use crate::strutil::trim_end;
use crate::strutil::to_lower;
use crate::strutil::lower_char;
use crate::strutil::eq_ignore_case;
use crate::strutil::contains_char;
use crate::strutil::is_ws;
use crate::strutil::lemma_find_char_spec;
use crate::strutil::lemma_find_char_at;
use crate::strutil::lemma_find_char_none;
use crate::strutil::lemma_trim_append_ws;
use crate::strutil::lemma_trim_end_at_append_ws;
use crate::strutil::lemma_trim_end_idempotent;
use crate::strutil::lemma_trim_of_trim_end;
use crate::strutil::lemma_trim_fixpoint;
use crate::strutil::lemma_trim_first_of_extension;
use crate::strutil::trim_start_at;
use crate::strutil::trim_end_at;
use crate::strutil::lemma_trim_start_at_bounds;
use crate::strutil::lemma_trim_end_at_bounds;
use crate::strutil::lemma_trim_start_at_is;
use crate::strutil::lemma_trim_end_at_is;
use crate::strutil::lemma_lower_char_nonletter;
use crate::strutil::str_trim;
use crate::strutil::str_trim_end;
use crate::strutil::str_find_char;
use crate::strutil::str_eq_ignore_case;
use crate::strutil::substring_string;
use crate::strutil::concat3;

verus! {

/// The part of a line before its first `;` comment marker.
pub open spec fn strip_comment(l: Seq<char>) -> Seq<char> {
    match find_char(l, ';') {
        Some(i) => l.take(i),
        None => l,
    }
}

/// A line reduced to its significant text: trimmed, comment dropped, trimmed.
pub open spec fn clean_line(l: Seq<char>) -> Seq<char> {
    trim(strip_comment(trim(l)))
}

/// Whether a line is a section header: its clean form is `[...]`.
pub open spec fn is_header(l: Seq<char>) -> bool {
    let c = clean_line(l);
    c.len() >= 2 && c[0] == '[' && c[c.len() - 1] == ']'
}

/// The name inside a header line's brackets, trimmed.
pub open spec fn header_name(l: Seq<char>) -> Seq<char> {
    let c = clean_line(l);
    trim(c.subrange(1, c.len() - 1))
}

/// Whether a line is the header of the given section (case-insensitive).
pub open spec fn is_header_of(l: Seq<char>, sec: Seq<char>) -> bool {
    is_header(l) && eq_ignore_case(header_name(l), sec)
}

/// Whether a line holds no key: blank, or a `;`/`#` comment.
pub open spec fn is_skip_line(l: Seq<char>) -> bool {
    let t = trim(l);
    t.len() == 0 || t[0] == ';' || t[0] == '#'
}

/// Whether a non-skip line assigns to the given key: the text before its
/// first `=`, trimmed, equals the key up to ASCII case.
pub open spec fn matches_key(l: Seq<char>, key: Seq<char>) -> bool {
    !is_skip_line(l) && match find_char(l, '=') {
        Some(e) => eq_ignore_case(trim(l.take(e)), key),
        None => false,
    }
}

/// Index of the first header line of the given section.
pub open spec fn find_section(ls: Seq<Seq<char>>, sec: Seq<char>) -> Option<int>
    decreases ls.len(),
{
    if ls.len() == 0 {
        None
    } else if is_header_of(ls[0], sec) {
        Some(0int)
    } else {
        match find_section(ls.skip(1), sec) {
            Some(i) => Some(i + 1),
            None => None,
        }
    }
}

/// Index of the first header line at or after `i`, or the document length.
pub open spec fn next_header_from(ls: Seq<Seq<char>>, i: int) -> int
    recommends
        0 <= i <= ls.len(),
    decreases ls.len() - i,
{
    if i < 0 || i >= ls.len() {
        ls.len() as int
    } else if is_header(ls[i]) {
        i
    } else {
        next_header_from(ls, i + 1)
    }
}

/// Index of the first line in `[lo, hi)` assigning to `key`.
pub open spec fn find_key_in(ls: Seq<Seq<char>>, lo: int, hi: int, key: Seq<char>) -> Option<int>
    recommends
        0 <= lo,
        hi <= ls.len(),
    decreases hi - lo,
{
    if lo < 0 || lo >= hi || hi > ls.len() {
        None
    } else if matches_key(ls[lo], key) {
        Some(lo)
    } else {
        find_key_in(ls, lo + 1, hi, key)
    }
}

/// A key line with its value replaced: the text before the first `=` keeps
/// its spelling (trailing whitespace dropped), followed by ` = ` and the value.
pub open spec fn replaced_line(l: Seq<char>, v: Seq<char>) -> Seq<char> {
    match find_char(l, '=') {
        Some(e) => trim_end(l.take(e)) + seq![' ', '=', ' '] + v,
        None => l,
    }
}

/// A freshly inserted `key = value` line.
pub open spec fn key_value_line(k: Seq<char>, v: Seq<char>) -> Seq<char> {
    k + seq![' ', '=', ' '] + v
}

/// A freshly inserted `[section]` header line.
pub open spec fn header_line(sec: Seq<char>) -> Seq<char> {
    seq!['['] + sec + seq![']']
}

/// Where lines inserted "at the end" of a region ending at `e` go: before
/// a final empty line — the mark of the document's trailing terminator —
/// when the region runs to the very end, else at `e` itself.
pub open spec fn append_at(ls: Seq<Seq<char>>, e: int) -> int {
    if e == ls.len() && e > 0 && ls[e - 1].len() == 0 {
        e - 1
    } else {
        e
    }
}

/// The document after an upsert of `key = v` in `sec`:
/// - the first matching key line of the section has its value replaced;
/// - a section without the key gains a `key = value` line at its end,
///   before the next header or the trailing terminator;
/// - a missing section is appended (blank line, header, key line).
pub open spec fn spec_upsert(
    ls: Seq<Seq<char>>,
    sec: Seq<char>,
    key: Seq<char>,
    v: Seq<char>,
) -> Seq<Seq<char>> {
    match find_section(ls, sec) {
        Some(s) => {
            let e = next_header_from(ls, s + 1);
            match find_key_in(ls, s + 1, e, key) {
                Some(i) => ls.update(i, replaced_line(ls[i], v)),
                None => ls.insert(append_at(ls, e), key_value_line(key, v)),
            }
        },
        None => {
            let p = append_at(ls, ls.len() as int);
            ls.take(p) + seq![Seq::<char>::empty(), header_line(sec), key_value_line(key, v)]
                + ls.skip(p)
        },
    }
}

/// The lines from index `i` on, with every line in `[lo, hi)` assigning to
/// `key` dropped and all others kept in order.
pub open spec fn keep_except(
    ls: Seq<Seq<char>>,
    lo: int,
    hi: int,
    key: Seq<char>,
    i: int,
) -> Seq<Seq<char>>
    decreases ls.len() - i,
{
    if i < 0 || i >= ls.len() {
        Seq::empty()
    } else {
        let head: Seq<Seq<char>> = if lo <= i < hi && matches_key(ls[i], key) {
            Seq::empty()
        } else {
            seq![ls[i]]
        };
        head + keep_except(ls, lo, hi, key, i + 1)
    }
}

/// The document after removing `key` from `sec`: every matching key line
/// of the section is deleted; an absent section or key changes nothing.
pub open spec fn spec_remove(ls: Seq<Seq<char>>, sec: Seq<char>, key: Seq<char>) -> Seq<
    Seq<char>,
> {
    match find_section(ls, sec) {
        Some(s) => {
            let e = next_header_from(ls, s + 1);
            keep_except(ls, s + 1, e, key, 0)
        },
        None => ls,
    }
}

/// Where no line of the window assigns to the key, nothing is dropped.
proof fn lemma_keep_except_id(ls: Seq<Seq<char>>, lo: int, hi: int, key: Seq<char>, i: int)
    requires
        0 <= i <= ls.len(),
        forall|k: int| lo <= k < hi && 0 <= k < ls.len() ==> !matches_key(#[trigger] ls[k], key),
    ensures
        keep_except(ls, lo, hi, key, i) == ls.skip(i),
    decreases ls.len() - i,
{
    if i < ls.len() {
        lemma_keep_except_id(ls, lo, hi, key, i + 1);
        assert(keep_except(ls, lo, hi, key, i) =~= ls.skip(i)) by {
            assert(ls.skip(i)[0] == ls[i]);
            assert(ls.skip(i).skip(1) =~= ls.skip(i + 1));
        }
    } else {
        assert(keep_except(ls, lo, hi, key, i) =~= ls.skip(i));
    }
}

/// The line sequence of a document text: lines are split at `\n` or `\r\n`;
/// the final, unterminated piece is a line of its own (possibly empty).
pub open spec fn spec_split_lines(s: Seq<char>) -> Seq<Seq<char>>
    decreases s.len(),
{
    if s.len() == 0 {
        seq![Seq::<char>::empty()]
    } else if s[0] == '\n' {
        seq![Seq::<char>::empty()] + spec_split_lines(s.skip(1))
    } else if s[0] == '\r' && s.len() >= 2 && s[1] == '\n' {
        seq![Seq::<char>::empty()] + spec_split_lines(s.skip(2))
    } else {
        let rest = spec_split_lines(s.skip(1));
        seq![seq![s[0]] + rest[0]] + rest.skip(1)
    }
}

/// The text of a line sequence, joined with a single `\n` terminator
/// between lines.
pub open spec fn spec_join_lines(ls: Seq<Seq<char>>) -> Seq<char>
    decreases ls.len(),
{
    if ls.len() == 0 {
        Seq::empty()
    } else if ls.len() == 1 {
        ls[0]
    } else {
        ls[0] + seq!['\n'] + spec_join_lines(ls.skip(1))
    }
}

/// Splitting never yields an empty sequence of lines.
pub proof fn lemma_split_lines_len(s: Seq<char>)
    ensures
        spec_split_lines(s).len() >= 1,
    decreases s.len(),
{
    if s.len() > 0 && s[0] != '\n' && !(s[0] == '\r' && s.len() >= 2 && s[1] == '\n') {
        lemma_split_lines_len(s.skip(1));
    }
}

/// `find_section` finds a header of the section, and the first one.
pub proof fn lemma_find_section_spec(ls: Seq<Seq<char>>, sec: Seq<char>)
    ensures
        match find_section(ls, sec) {
            Some(i) => 0 <= i < ls.len() && is_header_of(ls[i], sec) && forall|k: int|
                0 <= k < i ==> !is_header_of(ls[k], sec),
            None => forall|k: int| 0 <= k < ls.len() ==> !is_header_of(ls[k], sec),
        },
    decreases ls.len(),
{
    if ls.len() > 0 && !is_header_of(ls[0], sec) {
        lemma_find_section_spec(ls.skip(1), sec);
        assert(forall|k: int| 0 <= k < ls.skip(1).len() ==> ls.skip(1)[k] == ls[k + 1]);
        match find_section(ls.skip(1), sec) {
            Some(i) => {
                assert forall|k: int| 0 <= k < i + 1 implies !is_header_of(ls[k], sec) by {
                    if k > 0 {
                        assert(ls[k] == ls.skip(1)[k - 1]);
                    }
                }
            },
            None => {
                assert forall|k: int| 0 <= k < ls.len() implies !is_header_of(ls[k], sec) by {
                    if k > 0 {
                        assert(ls[k] == ls.skip(1)[k - 1]);
                    }
                }
            },
        }
    }
}

/// The first index carrying a header of the section is what `find_section`
/// returns.
pub proof fn lemma_find_section_at(ls: Seq<Seq<char>>, sec: Seq<char>, i: int)
    requires
        0 <= i < ls.len(),
        is_header_of(ls[i], sec),
        forall|k: int| 0 <= k < i ==> !is_header_of(ls[k], sec),
    ensures
        find_section(ls, sec) == Some(i),
{
    lemma_find_section_spec(ls, sec);
    match find_section(ls, sec) {
        Some(j) => {
            if j < i {
                assert(!is_header_of(ls[j], sec));
            }
            if i < j {
                assert(!is_header_of(ls[i], sec));
            }
        },
        None => {
            assert(!is_header_of(ls[i], sec));
        },
    }
}

/// `next_header_from` is the first header index at or after `i`.
pub proof fn lemma_next_header_spec(ls: Seq<Seq<char>>, i: int)
    requires
        0 <= i <= ls.len(),
    ensures
        i <= next_header_from(ls, i) <= ls.len(),
        next_header_from(ls, i) < ls.len() ==> is_header(ls[next_header_from(ls, i)]),
        forall|k: int| i <= k < next_header_from(ls, i) ==> !is_header(ls[k]),
    decreases ls.len() - i,
{
    if i < ls.len() && !is_header(ls[i]) {
        lemma_next_header_spec(ls, i + 1);
    }
}

/// The first header index at or after `i` is what `next_header_from` returns.
pub proof fn lemma_next_header_at(ls: Seq<Seq<char>>, i: int, j: int)
    requires
        0 <= i <= j <= ls.len(),
        forall|k: int| i <= k < j ==> !is_header(ls[k]),
        j < ls.len() ==> is_header(ls[j]),
    ensures
        next_header_from(ls, i) == j,
{
    lemma_next_header_spec(ls, i);
    let r = next_header_from(ls, i);
    if r < j {
        assert(!is_header(ls[r]));
    }
    if j < r {
        assert(!is_header(ls[j]));
    }
}

/// `find_key_in` finds a key line in the range, and the first one.
pub proof fn lemma_find_key_spec(ls: Seq<Seq<char>>, lo: int, hi: int, key: Seq<char>)
    requires
        0 <= lo,
        hi <= ls.len(),
    ensures
        match find_key_in(ls, lo, hi, key) {
            Some(i) => lo <= i < hi && matches_key(ls[i], key) && forall|k: int|
                lo <= k < i ==> !matches_key(ls[k], key),
            None => forall|k: int| lo <= k < hi ==> !matches_key(ls[k], key),
        },
    decreases hi - lo,
{
    if lo < hi && !matches_key(ls[lo], key) {
        lemma_find_key_spec(ls, lo + 1, hi, key);
    }
}

/// The first matching index in the range is what `find_key_in` returns.
pub proof fn lemma_find_key_at(ls: Seq<Seq<char>>, lo: int, hi: int, key: Seq<char>, i: int)
    requires
        0 <= lo <= i < hi <= ls.len(),
        matches_key(ls[i], key),
        forall|k: int| lo <= k < i ==> !matches_key(ls[k], key),
    ensures
        find_key_in(ls, lo, hi, key) == Some(i),
{
    lemma_find_key_spec(ls, lo, hi, key);
    match find_key_in(ls, lo, hi, key) {
        Some(j) => {
            if j < i {
                assert(!matches_key(ls[j], key));
            }
            if i < j {
                assert(!matches_key(ls[i], key));
            }
        },
        None => {
            assert(!matches_key(ls[i], key));
        },
    }
}

/// The clean form of a line: trimmed, comment dropped, trimmed again.
fn clean_exec<'a>(l: &'a str) -> (r: &'a str)
    ensures
        r@ == clean_line(l@),
{
    let t = str_trim(l);
    let cut = match str_find_char(t, ';') {
        Some(j) => {
            proof {
                lemma_find_char_spec(t@, ';');
            }
            t.substring_char(0, j)
        },
        None => t,
    };
    assert(cut@ == strip_comment(trim(l@)));
    str_trim(cut)
}

/// Exec header test.
pub fn line_is_header(l: &str) -> (r: bool)
    ensures
        r == is_header(l@),
{
    let c = clean_exec(l);
    let n = c.unicode_len();
    n >= 2 && c.get_char(0) == '[' && c.get_char(n - 1) == ']'
}

/// Exec test for a header of a given section.
pub fn line_is_header_of(l: &str, sec: &str) -> (r: bool)
    ensures
        r == is_header_of(l@, sec@),
{
    let c = clean_exec(l);
    let n = c.unicode_len();
    if n >= 2 && c.get_char(0) == '[' && c.get_char(n - 1) == ']' {
        let name = str_trim(c.substring_char(1, n - 1));
        str_eq_ignore_case(name, sec)
    } else {
        false
    }
}

/// Exec test for a line assigning to a given key.
pub fn line_matches_key(l: &str, key: &str) -> (r: bool)
    ensures
        r == matches_key(l@, key@),
{
    let t = str_trim(l);
    let n = t.unicode_len();
    if n == 0 {
        return false;
    }
    let c0 = t.get_char(0);
    if c0 == ';' || c0 == '#' {
        return false;
    }
    match str_find_char(l, '=') {
        Some(e) => {
            proof {
                lemma_find_char_spec(l@, '=');
            }
            let before = str_trim(l.substring_char(0, e));
            str_eq_ignore_case(before, key)
        },
        None => false,
    }
}

/// Index of the first header line of the section, scanning the whole document.
fn find_section_exec(lines: &Vec<String>, sec: &str) -> (r: Option<usize>)
    ensures
        match r {
            Some(i) => i < lines.len() && find_section(lines.deep_view(), sec@) == Some(i as int),
            None => find_section(lines.deep_view(), sec@) is None,
        },
{
    let ghost dv = lines.deep_view();
    let n = lines.len();
    let mut i: usize = 0;
    while i < n
        invariant
            0 <= i <= n,
            n == lines.len(),
            dv == lines.deep_view(),
            dv.len() == n,
            forall|k: int| 0 <= k < i ==> !is_header_of(dv[k], sec@),
        decreases n - i,
    {
        assert(dv[i as int] == lines[i as int]@);
        if line_is_header_of(lines[i].as_str(), sec) {
            proof {
                lemma_find_section_at(dv, sec@, i as int);
            }
            return Some(i);
        }
        i += 1;
    }
    proof {
        lemma_find_section_spec(dv, sec@);
        if find_section(dv, sec@) is Some {
            let j = find_section(dv, sec@)->Some_0;
            assert(!is_header_of(dv[j], sec@));
        }
    }
    None
}

/// Index of the first header line at or after `from`, or the line count.
fn next_header_exec(lines: &Vec<String>, from: usize) -> (r: usize)
    requires
        from <= lines.len(),
    ensures
        r as int == next_header_from(lines.deep_view(), from as int),
        from <= r <= lines.len(),
{
    let ghost dv = lines.deep_view();
    let n = lines.len();
    let mut i: usize = from;
    while i < n
        invariant
            from <= i <= n,
            n == lines.len(),
            dv == lines.deep_view(),
            dv.len() == n,
            forall|k: int| from <= k < i ==> !is_header(dv[k]),
        decreases n - i,
    {
        assert(dv[i as int] == lines[i as int]@);
        if line_is_header(lines[i].as_str()) {
            proof {
                lemma_next_header_at(dv, from as int, i as int);
            }
            return i;
        }
        i += 1;
    }
    proof {
        lemma_next_header_at(dv, from as int, n as int);
    }
    n
}

/// Index of the first key line in `[lo, hi)`.
fn find_key_exec(lines: &Vec<String>, lo: usize, hi: usize, key: &str) -> (r: Option<usize>)
    requires
        lo <= hi <= lines.len(),
    ensures
        match r {
            Some(i) => lo <= i < hi && find_key_in(lines.deep_view(), lo as int, hi as int, key@)
                == Some(i as int),
            None => find_key_in(lines.deep_view(), lo as int, hi as int, key@) is None,
        },
{
    let ghost dv = lines.deep_view();
    let mut i: usize = lo;
    while i < hi
        invariant
            lo <= i <= hi <= lines.len(),
            dv == lines.deep_view(),
            dv.len() == lines.len(),
            forall|k: int| lo <= k < i ==> !matches_key(dv[k], key@),
        decreases hi - i,
    {
        assert(dv[i as int] == lines[i as int]@);
        if line_matches_key(lines[i].as_str(), key) {
            proof {
                lemma_find_key_at(dv, lo as int, hi as int, key@, i as int);
            }
            return Some(i);
        }
        i += 1;
    }
    proof {
        lemma_find_key_spec(dv, lo as int, hi as int, key@);
        if find_key_in(dv, lo as int, hi as int, key@) is Some {
            let j = find_key_in(dv, lo as int, hi as int, key@)->Some_0;
            assert(!matches_key(dv[j], key@));
        }
    }
    None
}

/// Splitting a suffix that starts right before an unescaped `\n` yields the
/// piece before the newline (one trailing `\r` dropped) and the split of the
/// rest.
proof fn lemma_split_step(s: Seq<char>, a: int, b: int)
    requires
        0 <= a <= b < s.len(),
        s[b] == '\n',
        forall|k: int| a <= k < b ==> s[k] != '\n',
    ensures
        spec_split_lines(s.skip(a)) == seq![
            if b > a && s[b - 1] == '\r' {
                s.subrange(a, b - 1)
            } else {
                s.subrange(a, b)
            },
        ] + spec_split_lines(s.skip(b + 1)),
    decreases b - a,
{
    let t = s.skip(a);
    assert(forall|k: int| 0 <= k < t.len() ==> t[k] == s[a + k]);
    if a == b {
        assert(t[0] == '\n');
        assert(t.skip(1) =~= s.skip(a + 1));
        assert(s.subrange(a, b) =~= Seq::<char>::empty());
    } else if s[a] == '\r' && a + 1 <= b && s[a + 1] == '\n' {
        assert(a + 1 == b);
        assert(t[0] == '\r' && t.len() >= 2 && t[1] == '\n');
        assert(t.skip(2) =~= s.skip(b + 1));
        assert(s.subrange(a, b - 1) =~= Seq::<char>::empty());
    } else {
        assert(t[0] != '\n');
        assert(!(t[0] == '\r' && t.len() >= 2 && t[1] == '\n')) by {
            if t[0] == '\r' && t.len() >= 2 {
                assert(t[1] == s[a + 1]);
            }
        }
        lemma_split_step(s, a + 1, b);
        let rest = spec_split_lines(s.skip(a + 1));
        assert(t.skip(1) =~= s.skip(a + 1));
        let piece_rest = if b > a + 1 && s[b - 1] == '\r' {
            s.subrange(a + 1, b - 1)
        } else {
            s.subrange(a + 1, b)
        };
        assert(rest == seq![piece_rest] + spec_split_lines(s.skip(b + 1)));
        assert(rest[0] == piece_rest);
        assert(rest.skip(1) =~= spec_split_lines(s.skip(b + 1)));
        if b > a + 1 && s[b - 1] == '\r' {
            assert(seq![s[a]] + piece_rest =~= s.subrange(a, b - 1));
        } else {
            assert(b - 1 == a ==> s[b - 1] != '\r');
            assert(seq![s[a]] + piece_rest =~= s.subrange(a, b));
        }
        assert(spec_split_lines(t) == seq![seq![t[0]] + rest[0]] + rest.skip(1));
        assert(seq![t[0]] + rest[0] == seq![s[a]] + piece_rest);
    }
}

/// Splitting a suffix with no newline yields that suffix as a single line.
proof fn lemma_split_last(s: Seq<char>, a: int)
    requires
        0 <= a <= s.len(),
        forall|k: int| a <= k < s.len() ==> s[k] != '\n',
    ensures
        spec_split_lines(s.skip(a)) == seq![s.subrange(a, s.len() as int)],
    decreases s.len() - a,
{
    let t = s.skip(a);
    assert(forall|k: int| 0 <= k < t.len() ==> t[k] == s[a + k]);
    if t.len() == 0 {
        assert(s.subrange(a, s.len() as int) =~= Seq::<char>::empty());
    } else {
        assert(t[0] != '\n');
        assert(!(t[0] == '\r' && t.len() >= 2 && t[1] == '\n')) by {
            if t.len() >= 2 {
                assert(t[1] == s[a + 1]);
            }
        }
        lemma_split_last(s, a + 1);
        assert(t.skip(1) =~= s.skip(a + 1));
        let rest = spec_split_lines(s.skip(a + 1));
        assert(rest[0] == s.subrange(a + 1, s.len() as int));
        assert(rest.skip(1) =~= Seq::<Seq<char>>::empty());
        assert(seq![t[0]] + rest[0] =~= s.subrange(a, s.len() as int));
        assert(spec_split_lines(t) == seq![seq![t[0]] + rest[0]] + rest.skip(1));
        assert(spec_split_lines(t) =~= seq![s.subrange(a, s.len() as int)]);
    }
}

/// Splits a document text into its lines.
pub fn split_lines_exec(s: &str) -> (r: Vec<String>)
    ensures
        r.deep_view() == spec_split_lines(s@),
        r.len() >= 1,
{
    let n = s.unicode_len();
    let mut out: Vec<String> = Vec::new();
    let mut start: usize = 0;
    let mut i: usize = 0;
    proof {
        assert(s@.skip(0) =~= s@);
        assert(out.deep_view() + spec_split_lines(s@) =~= spec_split_lines(s@));
    }
    while i < n
        invariant
            0 <= start <= i <= n,
            n == s@.len(),
            forall|k: int| start <= k < i ==> s@[k] != '\n',
            spec_split_lines(s@) == out.deep_view() + spec_split_lines(s@.skip(start as int)),
        decreases n - i,
    {
        if s.get_char(i) == '\n' {
            let piece = if i > start && s.get_char(i - 1) == '\r' {
                substring_string(s, start, i - 1)
            } else {
                substring_string(s, start, i)
            };
            proof {
                lemma_split_step(s@, start as int, i as int);
            }
            out.push(piece);
            proof {
                assert(out.deep_view() =~= out.deep_view().subrange(
                    0,
                    out.deep_view().len() - 1,
                ) + seq![out.deep_view()[out.deep_view().len() - 1]]);
                assert(spec_split_lines(s@) =~= out.deep_view() + spec_split_lines(
                    s@.skip(i + 1),
                ));
            }
            start = i + 1;
        }
        i += 1;
    }
    let piece = substring_string(s, start, n);
    proof {
        lemma_split_last(s@, start as int);
    }
    out.push(piece);
    proof {
        assert(out.deep_view() =~= out.deep_view().subrange(0, out.deep_view().len() - 1) + seq![
            out.deep_view()[out.deep_view().len() - 1],
        ]);
        assert(spec_split_lines(s@) =~= out.deep_view());
    }
    out
}

/// Joins lines with a single `\n` between them.
pub fn join_lines_exec(lines: &Vec<String>) -> (r: String)
    ensures
        r@ == spec_join_lines(lines.deep_view()),
{
    let ghost dv = lines.deep_view();
    let n = lines.len();
    if n == 0 {
        return String::new();
    }
    assert(dv[0] == lines[0int]@);
    let mut r = lines[0].clone();
    let mut i: usize = 1;
    while i < n
        invariant
            1 <= i <= n,
            n == lines.len(),
            dv == lines.deep_view(),
            dv.len() == n,
            spec_join_lines(dv) == r@ + if i < n {
                seq!['\n'] + spec_join_lines(dv.skip(i as int))
            } else {
                Seq::<char>::empty()
            },
        decreases n - i,
    {
        r.append("\n");
        assert(dv[i as int] == lines[i as int]@);
        r.append(lines[i].as_str());
        proof {
            reveal_strlit("\n");
            assert("\n"@ =~= seq!['\n']);
            let t = dv.skip(i as int);
            assert(t[0] == dv[i as int]);
            assert(t.skip(1) =~= dv.skip(i + 1));
            if i + 1 < n {
                assert(spec_join_lines(t) == t[0] + seq!['\n'] + spec_join_lines(t.skip(1)));
            } else {
                assert(t.len() == 1);
                assert(spec_join_lines(t) == t[0]);
            }
        }
        i += 1;
    }
    proof {
        if n == 1 {
            assert(spec_join_lines(dv) == dv[0]);
        }
    }
    r
}

/// A patchable text-config document, held as raw text together with the
/// path it was read from. The text is rewritten only by `set`; `remove_key`
/// leaves it untouched when there is nothing to delete.
pub struct IniManager {
    pub path: String,
    pub content: String,
}

impl IniManager {
    /// Wraps a document text read from `path`.
    pub fn new(path: String, content: String) -> (r: Self)
        ensures
            r.path == path,
            r.content == content,
    {
        IniManager { path, content }
    }

    /// Upserts `section`/`key` to `value`, preserving all other lines.
    pub fn set(&mut self, section: &str, key: &str, value: &str)
        ensures
            final(self).path == old(self).path,
            final(self).content@ == spec_join_lines(
                spec_upsert(spec_split_lines(old(self).content@), section@, key@, value@),
            ),
    {
        let ghost ls = spec_split_lines(self.content@);
        let mut lines = split_lines_exec(self.content.as_str());
        match find_section_exec(&lines, section) {
            Some(si) => {
                let e = next_header_exec(&lines, si + 1);
                proof {
                    lemma_next_header_spec(ls, si + 1);
                }
                match find_key_exec(&lines, si + 1, e, key) {
                    Some(ki) => {
                        assert(lines.deep_view()[ki as int] == lines[ki as int]@);
                        assert(matches_key(ls[ki as int], key@)) by {
                            lemma_find_key_spec(ls, si + 1, e as int, key@);
                        }
                        let eqi = match str_find_char(lines[ki].as_str(), '=') {
                            Some(e2) => e2,
                            None => {
                                proof {
                                    assert(find_char(ls[ki as int], '=') is Some);
                                }
                                assert(false);
                                0
                            },
                        };
                        proof {
                            lemma_find_char_spec(ls[ki as int], '=');
                        }
                        let prefix = substring_string(lines[ki].as_str(), 0, eqi);
                        let tp = str_trim_end(prefix.as_str());
                        let newline = concat3(tp, " = ", value);
                        proof {
                            reveal_strlit(" = ");
                            assert(" = "@ =~= seq![' ', '=', ' ']);
                            assert(newline@ == replaced_line(ls[ki as int], value@));
                        }
                        lines.set(ki, newline);
                        proof {
                            assert(lines.deep_view() =~= spec_upsert(ls, section@, key@, value@));
                        }
                    },
                    None => {
                        let kv = concat3(key, " = ", value);
                        proof {
                            reveal_strlit(" = ");
                            assert(" = "@ =~= seq![' ', '=', ' ']);
                        }
                        let last = lines.len() - 1;
                        let pos = if e == lines.len() && lines[last].as_str().unicode_len() == 0 {
                            assert(lines.deep_view()[last as int] == lines[last as int]@);
                            last
                        } else {
                            e
                        };
                        assert(pos as int == append_at(ls, e as int));
                        lines.insert(pos, kv);
                        proof {
                            assert(lines.deep_view() =~= spec_upsert(ls, section@, key@, value@));
                        }
                    },
                }
            },
            None => {
                let h = concat3("[", section, "]");
                let kv = concat3(key, " = ", value);
                proof {
                    reveal_strlit("[");
                    reveal_strlit("]");
                    reveal_strlit(" = ");
                    assert("["@ =~= seq!['[']);
                    assert("]"@ =~= seq![']']);
                    assert(" = "@ =~= seq![' ', '=', ' ']);
                }
                let n = lines.len();
                let last = n - 1;
                let pos = if lines[last].as_str().unicode_len() == 0 {
                    assert(lines.deep_view()[last as int] == lines[last as int]@);
                    last
                } else {
                    n
                };
                assert(pos as int == append_at(ls, ls.len() as int));
                lines.insert(pos, kv);
                lines.insert(pos, h);
                lines.insert(pos, String::new());
                proof {
                    assert(lines.deep_view() =~= spec_upsert(ls, section@, key@, value@));
                }
            },
        }
        self.content = join_lines_exec(&lines);
    }

    /// Deletes every `key` line of `section`; leaves the document text
    /// byte-identical when the section or the key is absent.
    pub fn remove_key(&mut self, section: &str, key: &str)
        ensures
            final(self).path == old(self).path,
            spec_remove(spec_split_lines(old(self).content@), section@, key@) == spec_split_lines(
                old(self).content@,
            ) ==> final(self).content == old(self).content,
            spec_remove(spec_split_lines(old(self).content@), section@, key@) != spec_split_lines(
                old(self).content@,
            ) ==> final(self).content@ == spec_join_lines(
                spec_remove(spec_split_lines(old(self).content@), section@, key@),
            ),
    {
        let ghost ls = spec_split_lines(self.content@);
        let lines = split_lines_exec(self.content.as_str());
        match find_section_exec(&lines, section) {
            Some(si) => {
                let e = next_header_exec(&lines, si + 1);
                let ghost lo = si + 1;
                let ghost hi = e as int;
                let n = lines.len();
                let mut out: Vec<String> = Vec::new();
                let mut i: usize = 0;
                proof {
                    assert(out.deep_view() + keep_except(ls, lo, hi, key@, 0) =~= keep_except(
                        ls,
                        lo,
                        hi,
                        key@,
                        0,
                    ));
                }
                while i < n
                    invariant
                        0 <= i <= n,
                        n == lines.len(),
                        lines.deep_view() == ls,
                        ls.len() == n,
                        lo == si + 1 < n + 1,
                        hi == e as int <= n,
                        keep_except(ls, lo, hi, key@, 0) == out.deep_view() + keep_except(
                            ls,
                            lo,
                            hi,
                            key@,
                            i as int,
                        ),
                        out.deep_view().len() <= i,
                        out.deep_view().len() == i ==> out.deep_view() =~= ls.take(i as int),
                    decreases n - i,
                {
                    assert(lines.deep_view()[i as int] == lines[i as int]@);
                    let inside = si < i && i < e;
                    if inside && line_matches_key(lines[i].as_str(), key) {
                        proof {
                            assert(keep_except(ls, lo, hi, key@, i as int) == keep_except(
                                ls,
                                lo,
                                hi,
                                key@,
                                i + 1,
                            ));
                        }
                    } else {
                        out.push(lines[i].clone());
                        proof {
                            assert(out.deep_view() =~= out.deep_view().subrange(
                                0,
                                out.deep_view().len() - 1,
                            ) + seq![out.deep_view()[out.deep_view().len() - 1]]);
                            assert(keep_except(ls, lo, hi, key@, i as int) == seq![ls[i as int]]
                                + keep_except(ls, lo, hi, key@, i + 1));
                            if out.deep_view().len() == i + 1 {
                                assert(out.deep_view() =~= ls.take(i + 1));
                            }
                        }
                    }
                    i += 1;
                }
                proof {
                    assert(keep_except(ls, lo, hi, key@, n as int) =~= Seq::<Seq<char>>::empty());
                    assert(keep_except(ls, lo, hi, key@, 0) =~= out.deep_view());
                }
                if out.len() < n {
                    proof {
                        assert(spec_remove(ls, section@, key@) != ls);
                    }
                    self.content = join_lines_exec(&out);
                } else {
                    proof {
                        assert(out.deep_view() =~= ls.take(n as int));
                        assert(ls.take(n as int) =~= ls);
                        assert(spec_remove(ls, section@, key@) == ls);
                    }
                }
            },
            None => {
                proof {
                    assert(spec_remove(ls, section@, key@) == ls);
                }
            },
        }
    }
}

/// A section argument in ordinary form: already trimmed, and free of the
/// comment marker that would cut its generated header line short.
pub open spec fn plain_section(s: Seq<char>) -> bool {
    trim(s) == s && !contains_char(s, ';')
}

/// A key argument in ordinary form: nonempty, trimmed, free of `=`, and not
/// starting like a comment or a header.
pub open spec fn plain_key(k: Seq<char>) -> bool {
    k.len() > 0 && trim(k) == k && !contains_char(k, '=') && k[0] != ';' && k[0] != '#' && k[0]
        != '['
}

/// The clean form of a line whose trim does not start a comment begins with
/// the trim's first character.
proof fn lemma_clean_first(l: Seq<char>)
    requires
        trim(l).len() > 0,
        trim(l)[0] != ';',
    ensures
        clean_line(l).len() > 0,
        clean_line(l)[0] == trim(l)[0],
{
    let t = trim(l);
    lemma_trim_start_at_bounds(l);
    lemma_trim_end_at_bounds(l);
    assert(!is_ws(t[0])) by {
        assert(t[0] == l[trim_start_at(l)]);
    }
    lemma_find_char_spec(t, ';');
    let cut = strip_comment(t);
    assert(cut.len() > 0 && cut[0] == t[0]) by {
        match find_char(t, ';') {
            Some(j) => {
                assert(j != 0);
                assert(cut == t.take(j));
                assert(cut[0] == t[0]);
            },
            None => {},
        }
    }
    lemma_trim_start_at_is(cut, 0);
    lemma_trim_end_at_bounds(cut);
    assert(trim_end_at(cut) > 0) by {
        if trim_end_at(cut) <= 0 {
            assert(is_ws(cut[0]));
        }
    }
    assert(clean_line(l) == trim(cut));
    assert(trim(cut).len() > 0 && trim(cut)[0] == cut[0]);
}

/// An assignment line `u = v` built from a stem `u` that spells the key:
/// it is no header, it assigns to the key, and replacing its value again
/// with the same `v` reproduces it exactly.
proof fn lemma_assign_line(u: Seq<char>, k: Seq<char>, v: Seq<char>)
    requires
        u.len() > 0,
        !contains_char(u, '='),
        trim_end(u) == u,
        eq_ignore_case(trim(u), k),
        plain_key(k),
    ensures
        !is_header(u + seq![' ', '=', ' '] + v),
        matches_key(u + seq![' ', '=', ' '] + v, k),
        replaced_line(u + seq![' ', '=', ' '] + v, v) == u + seq![' ', '=', ' '] + v,
{
    let a = u + seq![' ', '=', ' '] + v;
    let ul = u.len() as int;
    assert(a[ul] == ' ' && a[ul + 1] == '=' && a[ul + 2] == ' ');
    assert(forall|j: int| 0 <= j < ul ==> a[j] == u[j]);
    // the first `=` of the line is the one we wrote
    assert forall|j: int| 0 <= j < ul + 1 implies a[j] != '=' by {
        if j < ul {
            assert(a[j] == u[j]);
        }
    }
    lemma_find_char_at(a, '=', ul + 1);
    // the text before it trims to the stem's trim, which spells the key
    assert(a.take(ul + 1) =~= u + seq![' ']);
    lemma_trim_append_ws(u, ' ');
    assert(trim(a.take(ul + 1)) == trim(u));
    // the line is not blank and starts with the key's first letter
    assert(to_lower(trim(u)).len() == to_lower(k).len());
    assert(trim(u).len() == k.len());
    lemma_trim_start_at_bounds(u);
    lemma_trim_end_at_bounds(u);
    assert(trim_start_at(u) < u.len()) by {
        lemma_trim_fixpoint_rev(u);
    }
    lemma_trim_first_of_extension(u, a);
    let x = trim(u)[0];
    assert(lower_char(x) == lower_char(k[0])) by {
        assert(to_lower(trim(u))[0] == lower_char(trim(u)[0]));
        assert(to_lower(k)[0] == lower_char(k[0]));
    }
    assert(x != ';') by {
        if x == ';' {
            lemma_lower_char_nonletter(k[0], ';');
        }
    }
    assert(x != '#') by {
        if x == '#' {
            lemma_lower_char_nonletter(k[0], '#');
        }
    }
    assert(x != '[') by {
        if x == '[' {
            lemma_lower_char_nonletter(k[0], '[');
        }
    }
    assert(!is_skip_line(a));
    assert(matches_key(a, k));
    // not a header: its clean form starts with the key's first letter
    lemma_clean_first(a);
    assert(!is_header(a));
    // replacing the value again reproduces the line
    lemma_trim_end_at_append_ws(u, ' ');
    assert(trim_end(a.take(ul + 1)) == trim_end(u + seq![' ']));
    assert(trim_end(u + seq![' ']) == trim_end(u));
    assert(replaced_line(a, v) == trim_end(u) + seq![' ', '=', ' '] + v);
}

/// A nonempty trimmed sequence has a non-whitespace character, so its
/// leading-trim cut is inside it.
proof fn lemma_trim_fixpoint_rev(u: Seq<char>)
    requires
        u.len() > 0,
        trim(u).len() > 0,
    ensures
        trim_start_at(u) < u.len(),
{
    lemma_trim_start_at_bounds(u);
    lemma_trim_end_at_bounds(u);
    if trim_start_at(u) <= trim_end_at(u) {
        assert(trim(u).len() == trim_end_at(u) - trim_start_at(u));
        assert(trim_start_at(u) < trim_end_at(u));
    } else {
        assert(trim(u).len() == 0);
    }
}

/// The generated `[section]` line is a header of the section.
proof fn lemma_header_line_is_header(sec: Seq<char>)
    requires
        plain_section(sec),
    ensures
        is_header_of(header_line(sec), sec),
{
    let h = header_line(sec);
    assert(h.len() == sec.len() + 2);
    assert(h[0] == '[');
    assert(h[h.len() - 1] == ']');
    assert(forall|j: int| 0 <= j < sec.len() ==> h[j + 1] == sec[j]);
    lemma_trim_start_at_is(h, 0);
    lemma_trim_end_at_is(h, h.len() as int);
    assert(trim(h) =~= h);
    assert forall|j: int| 0 <= j < h.len() implies h[j] != ';' by {
        if 1 <= j < h.len() - 1 {
            assert(h[j] == sec[j - 1]);
            assert(!contains_char(sec, ';'));
            if sec[j - 1] == ';' {
                assert(contains_char(sec, ';'));
            }
        }
    }
    lemma_find_char_none(h, ';');
    assert(strip_comment(h) == h);
    assert(clean_line(h) == h);
    assert(is_header(h));
    assert(h.subrange(1, h.len() - 1) =~= sec);
    assert(header_name(h) == trim(sec));
}

/// The empty line is neither a header nor a key assignment.
proof fn lemma_empty_line_inert(k: Seq<char>)
    ensures
        !is_header(Seq::<char>::empty()),
        !matches_key(Seq::<char>::empty(), k),
{
    let e = Seq::<char>::empty();
    lemma_trim_start_at_is(e, 0);
    lemma_trim_end_at_is(e, 0);
    assert(trim(e) =~= e);
    assert(strip_comment(e) == e);
    assert(clean_line(e).len() == 0);
    assert(is_skip_line(e));
}

/// Upserting the same section, key and value twice yields the same document
/// as upserting once, for arguments in ordinary form.
pub proof fn lemma_upsert_idempotent(
    ls: Seq<Seq<char>>,
    sec: Seq<char>,
    key: Seq<char>,
    v: Seq<char>,
)
    requires
        plain_section(sec),
        plain_key(key),
    ensures
        spec_upsert(spec_upsert(ls, sec, key, v), sec, key, v) == spec_upsert(ls, sec, key, v),
{
    let ls1 = spec_upsert(ls, sec, key, v);
    lemma_find_section_spec(ls, sec);
    let kv = key_value_line(key, v);
    lemma_trim_fixpoint(key);
    assert(eq_ignore_case(trim(key), key));
    assert forall|j: int| 0 <= j < key.len() implies key[j] != '=' by {
        if key[j] == '=' {
            assert(contains_char(key, '='));
        }
    }
    lemma_assign_line(key, key, v);
    assert(kv == key + seq![' ', '=', ' '] + v);
    match find_section(ls, sec) {
        Some(si) => {
            lemma_next_header_spec(ls, si + 1);
            let e = next_header_from(ls, si + 1);
            lemma_find_key_spec(ls, si + 1, e, key);
            match find_key_in(ls, si + 1, e, key) {
                Some(ki) => {
                    let l0 = ls[ki];
                    assert(matches_key(l0, key));
                    lemma_find_char_spec(l0, '=');
                    let eq = find_char(l0, '=')->Some_0;
                    let pre = l0.take(eq);
                    let u = trim_end(pre);
                    lemma_trim_end_at_bounds(pre);
                    assert(u == pre.take(trim_end_at(pre)));
                    assert(forall|j: int| 0 <= j < u.len() ==> u[j] == l0[j]);
                    lemma_trim_of_trim_end(pre);
                    assert(eq_ignore_case(trim(u), key));
                    lemma_trim_end_idempotent(pre);
                    assert(trim_end(u) == u);
                    assert(u.len() > 0) by {
                        assert(to_lower(trim(u)).len() == to_lower(key).len());
                        assert(trim(u).len() == key.len());
                        lemma_trim_start_at_bounds(u);
                        lemma_trim_end_at_bounds(u);
                        if trim_start_at(u) <= trim_end_at(u) {
                        }
                    }
                    assert forall|j: int| 0 <= j < u.len() implies u[j] != '=' by {
                        assert(u[j] == l0[j]);
                    }
                    assert(!contains_char(u, '=')) by {
                        if contains_char(u, '=') {
                            let j = choose|j: int| 0 <= j < u.len() && u[j] == '=';
                            assert(u[j] != '=');
                        }
                    }
                    lemma_assign_line(u, key, v);
                    let a = replaced_line(l0, v);
                    assert(a == u + seq![' ', '=', ' '] + v);
                    assert(ls1 == ls.update(ki, a));
                    // the section is found at the same header
                    assert forall|j: int| 0 <= j < si implies !is_header_of(ls1[j], sec) by {
                        assert(ls1[j] == ls[j]);
                    }
                    assert(ls1[si] == ls[si]);
                    lemma_find_section_at(ls1, sec, si);
                    // the section still ends at the same next header
                    assert forall|j: int| si + 1 <= j < e implies !is_header(ls1[j]) by {
                        if j != ki {
                            assert(ls1[j] == ls[j]);
                        }
                    }
                    if e < ls.len() as int {
                        assert(ls1[e] == ls[e]);
                    }
                    lemma_next_header_at(ls1, si + 1, e);
                    // the key is found at the same line
                    assert forall|j: int| si + 1 <= j < ki implies !matches_key(ls1[j], key) by {
                        assert(ls1[j] == ls[j]);
                    }
                    assert(ls1[ki] == a);
                    lemma_find_key_at(ls1, si + 1, e, key, ki);
                    assert(spec_upsert(ls1, sec, key, v) == ls1.update(ki, replaced_line(a, v)));
                    assert(replaced_line(a, v) == a);
                    assert(ls1.update(ki, a) =~= ls1);
                },
                None => {
                    let p = append_at(ls, e);
                    assert(ls1 == ls.insert(p, kv));
                    ls.insert_ensures(p, kv);
                    assert(si < e);
                    // the insertion point stays inside the section: where it
                    // moves before the final empty line, that line is not
                    // the section header
                    assert(si + 1 <= p <= e) by {
                        if p != e {
                            assert(p == e - 1 && ls[e - 1].len() == 0);
                            assert(is_header_of(ls[si], sec));
                            assert(clean_line(ls[si]).len() >= 2) by {
                                if !is_header(ls[si]) {
                                }
                            }
                            assert(ls[si].len() > 0) by {
                                lemma_trim_start_at_bounds(ls[si]);
                                lemma_trim_end_at_bounds(ls[si]);
                                if ls[si].len() == 0 {
                                    assert(trim(ls[si]).len() == 0);
                                    assert(strip_comment(trim(ls[si])).len() == 0);
                                    assert(clean_line(ls[si]).len() == 0);
                                }
                            }
                            assert(si != e - 1);
                        }
                    }
                    assert forall|j: int| 0 <= j < si implies !is_header_of(ls1[j], sec) by {
                        assert(ls1[j] == ls[j]);
                    }
                    assert(ls1[si] == ls[si]);
                    lemma_find_section_at(ls1, sec, si);
                    assert forall|j: int| si + 1 <= j < e + 1 implies !is_header(ls1[j]) by {
                        if j < p {
                            assert(ls1[j] == ls[j]);
                        } else if j == p {
                            assert(ls1[p] == kv);
                        } else {
                            assert(ls1[j] == ls[j - 1]);
                            assert(si + 1 <= j - 1 < e);
                        }
                    }
                    if e + 1 < ls1.len() {
                        assert(ls1[e + 1] == ls[e]);
                        assert(is_header(ls[e]));
                    }
                    lemma_next_header_at(ls1, si + 1, e + 1);
                    assert forall|j: int| si + 1 <= j < p implies !matches_key(ls1[j], key) by {
                        assert(ls1[j] == ls[j]);
                    }
                    assert(ls1[p] == kv);
                    lemma_find_key_at(ls1, si + 1, e + 1, key, p);
                    assert(spec_upsert(ls1, sec, key, v) == ls1.update(p, replaced_line(kv, v)));
                    assert(replaced_line(kv, v) == kv);
                    assert(ls1.update(p, kv) =~= ls1);
                },
            }
        },
        None => {
            let n = ls.len() as int;
            let p = append_at(ls, n);
            let hd = header_line(sec);
            assert(ls1 == ls.take(p) + seq![Seq::<char>::empty(), hd, kv] + ls.skip(p));
            assert(ls1.len() == n + 3);
            assert(forall|j: int| 0 <= j < p ==> ls1[j] == ls[j]);
            assert(ls1[p] =~= Seq::<char>::empty());
            assert(ls1[p + 1] == hd);
            assert(ls1[p + 2] == kv);
            assert(forall|j: int| p + 3 <= j < n + 3 ==> ls1[j] == ls[j - 3]);
            assert(forall|j: int| p + 3 <= j < n + 3 ==> ls1[j].len() == 0);
            lemma_header_line_is_header(sec);
            lemma_empty_line_inert(key);
            assert(!is_header(Seq::<char>::empty()));
            assert forall|j: int| 0 <= j < p + 1 implies !is_header_of(ls1[j], sec) by {
                if j < p {
                    assert(ls1[j] == ls[j]);
                } else {
                    assert(!is_header(ls1[j]));
                }
            }
            lemma_find_section_at(ls1, sec, p + 1);
            assert(!is_header(kv));
            assert forall|j: int| p + 2 <= j < n + 3 implies !is_header(ls1[j]) by {
                if j > p + 2 {
                    assert(ls1[j].len() == 0);
                    assert(ls1[j] =~= Seq::<char>::empty());
                }
            }
            lemma_next_header_at(ls1, p + 2, n + 3);
            assert(spec_upsert(ls1, sec, key, v) == match find_key_in(ls1, p + 2, n + 3, key) {
                Some(i) => ls1.update(i, replaced_line(ls1[i], v)),
                None => ls1.insert(append_at(ls1, n + 3), key_value_line(key, v)),
            });
            lemma_find_key_at(ls1, p + 2, n + 3, key, p + 2);
            assert(spec_upsert(ls1, sec, key, v) == ls1.update(p + 2, replaced_line(kv, v)));
            assert(replaced_line(kv, v) == kv);
            assert(ls1.update(p + 2, kv) =~= ls1);
        },
    }
}

/// Whether a line can round-trip through a `\n` join: it holds no newline
/// and does not end with a carriage return that the next split would strip.
pub open spec fn joinable_line(l: Seq<char>) -> bool {
    !contains_char(l, '\n') && (l.len() == 0 || l[l.len() - 1] != '\r')
}

/// Whether a line sequence round-trips through join and split.
pub open spec fn joinable_lines(ls: Seq<Seq<char>>) -> bool {
    ls.len() >= 1 && forall|i: int| 0 <= i < ls.len() ==> joinable_line(#[trigger] ls[i])
}

/// Splitting the join of round-trippable lines gives the lines back.
pub proof fn lemma_split_join_id(ls: Seq<Seq<char>>)
    requires
        joinable_lines(ls),
    ensures
        spec_split_lines(spec_join_lines(ls)) == ls,
    decreases ls.len(),
{
    if ls.len() == 1 {
        let l = ls[0];
        assert(spec_join_lines(ls) == l);
        assert(forall|k: int| 0 <= k < l.len() ==> l[k] != '\n') by {
            if exists|k: int| 0 <= k < l.len() && l[k] == '\n' {
                assert(contains_char(l, '\n'));
            }
        }
        lemma_split_last(l, 0);
        assert(l.subrange(0, l.len() as int) =~= l);
        assert(spec_split_lines(l) =~= seq![l]);
        assert(seq![l] =~= ls);
    } else {
        let l = ls[0];
        let rest = ls.skip(1);
        let s = spec_join_lines(ls);
        assert(s == l + seq!['\n'] + spec_join_lines(rest));
        let b = l.len() as int;
        assert(s[b] == '\n');
        assert forall|k: int| 0 <= k < b implies s[k] != '\n' by {
            assert(s[k] == l[k]);
            if l[k] == '\n' {
                assert(contains_char(l, '\n'));
            }
        }
        lemma_split_step(s, 0, b);
        assert(s.skip(0) =~= s);
        assert(b > 0 ==> s[b - 1] == l[l.len() - 1]);
        assert(b > 0 ==> s[b - 1] != '\r');
        assert(s.subrange(0, b) =~= l);
        assert(s.skip(b + 1) =~= spec_join_lines(rest));
        assert(joinable_lines(rest)) by {
            assert(forall|i: int| 0 <= i < rest.len() ==> rest[i] == ls[i + 1]);
        }
        lemma_split_join_id(rest);
        assert(spec_split_lines(s) == seq![l] + rest);
        assert(seq![l] + rest =~= ls);
    }
}

/// Lines produced by a split never hold a newline.
pub proof fn lemma_split_lines_no_newline(s: Seq<char>)
    ensures
        forall|i: int|
            0 <= i < spec_split_lines(s).len() ==> !contains_char(
                #[trigger] spec_split_lines(s)[i],
                '\n',
            ),
    decreases s.len(),
{
    let r = spec_split_lines(s);
    if s.len() == 0 {
        assert(!contains_char(r[0], '\n'));
    } else if s[0] == '\n' {
        lemma_split_lines_no_newline(s.skip(1));
        assert forall|i: int| 0 <= i < r.len() implies !contains_char(r[i], '\n') by {
            if i == 0 {
                assert(r[0].len() == 0);
            } else {
                assert(r[i] == spec_split_lines(s.skip(1))[i - 1]);
            }
        }
    } else if s[0] == '\r' && s.len() >= 2 && s[1] == '\n' {
        lemma_split_lines_no_newline(s.skip(2));
        assert forall|i: int| 0 <= i < r.len() implies !contains_char(r[i], '\n') by {
            if i == 0 {
                assert(r[0].len() == 0);
            } else {
                assert(r[i] == spec_split_lines(s.skip(2))[i - 1]);
            }
        }
    } else {
        lemma_split_lines_no_newline(s.skip(1));
        let rest = spec_split_lines(s.skip(1));
        lemma_split_lines_len(s.skip(1));
        assert forall|i: int| 0 <= i < r.len() implies !contains_char(r[i], '\n') by {
            if i == 0 {
                assert(r[0] == seq![s[0]] + rest[0]);
                assert(!contains_char(rest[0], '\n'));
                if contains_char(r[0], '\n') {
                    let j = choose|j: int| 0 <= j < r[0].len() && r[0][j] == '\n';
                    if j == 0 {
                        assert(s[0] == '\n');
                    } else {
                        assert(r[0][j] == rest[0][j - 1]);
                        assert(contains_char(rest[0], '\n'));
                    }
                }
            } else {
                assert(r[i] == rest.skip(1)[i - 1]);
                assert(rest.skip(1)[i - 1] == rest[i]);
            }
        }
    }
}

/// An upsert with round-trippable arguments keeps every line of the
/// document round-trippable.
pub proof fn lemma_upsert_joinable(ls: Seq<Seq<char>>, sec: Seq<char>, key: Seq<char>, v: Seq<
    char,
>)
    requires
        joinable_lines(ls),
        plain_section(sec),
        plain_key(key),
        !contains_char(sec, '\n'),
        !contains_char(key, '\n'),
        !contains_char(v, '\n'),
        v.len() > 0 ==> v[v.len() - 1] != '\r',
    ensures
        joinable_lines(spec_upsert(ls, sec, key, v)),
{
    let r = spec_upsert(ls, sec, key, v);
    let kv = key_value_line(key, v);
    assert(joinable_line(kv)) by {
        lemma_concat_joinable(key, v);
    }
    lemma_find_section_spec(ls, sec);
    match find_section(ls, sec) {
        Some(si) => {
            lemma_next_header_spec(ls, si + 1);
            let e = next_header_from(ls, si + 1);
            lemma_find_key_spec(ls, si + 1, e, key);
            match find_key_in(ls, si + 1, e, key) {
                Some(ki) => {
                    let l0 = ls[ki];
                    assert(matches_key(l0, key));
                    lemma_find_char_spec(l0, '=');
                    let eq = find_char(l0, '=')->Some_0;
                    let pre = l0.take(eq);
                    let u = trim_end(pre);
                    lemma_trim_end_at_bounds(pre);
                    assert(joinable_line(replaced_line(l0, v))) by {
                        assert(forall|j: int| 0 <= j < u.len() ==> u[j] == l0[j]);
                        assert(!contains_char(u, '\n')) by {
                            if contains_char(u, '\n') {
                                let j = choose|j: int| 0 <= j < u.len() && u[j] == '\n';
                                assert(l0[j] == '\n');
                                assert(contains_char(l0, '\n'));
                            }
                        }
                        lemma_concat_joinable(u, v);
                        assert(replaced_line(l0, v) == u + seq![' ', '=', ' '] + v);
                    }
                    assert forall|i: int| 0 <= i < r.len() implies joinable_line(#[trigger] r[i]) by {
                        if i != ki {
                            assert(r[i] == ls[i]);
                        }
                    }
                },
                None => {
                    let p = append_at(ls, e);
                    assert(0 <= p <= ls.len());
                    ls.insert_ensures(p, kv);
                    assert forall|i: int| 0 <= i < r.len() implies joinable_line(#[trigger] r[i]) by {
                        if i < p {
                            assert(r[i] == ls[i]);
                        } else if i == p {
                            assert(r[i] == kv);
                        } else {
                            assert(r[i] == ls[i - 1]);
                        }
                    }
                },
            }
        },
        None => {
            let n = ls.len() as int;
            let hd = header_line(sec);
            assert(joinable_line(hd)) by {
                assert(hd[hd.len() - 1] == ']');
                if contains_char(hd, '\n') {
                    let j = choose|j: int| 0 <= j < hd.len() && hd[j] == '\n';
                    assert(1 <= j < hd.len() - 1);
                    assert(hd[j] == sec[j - 1]);
                    assert(contains_char(sec, '\n'));
                }
            }
            let p = append_at(ls, n);
            assert forall|i: int| 0 <= i < r.len() implies joinable_line(#[trigger] r[i]) by {
                if i < p {
                    assert(r[i] == ls[i]);
                } else if i == p {
                    assert(r[i] =~= Seq::<char>::empty());
                } else if i == p + 1 {
                    assert(r[i] == hd);
                } else if i == p + 2 {
                    assert(r[i] == kv);
                } else {
                    assert(r[i] == ls[i - 3]);
                    assert(r[i].len() == 0);
                    assert(r[i] =~= Seq::<char>::empty());
                }
            }
        },
    }
}

/// A `stem = value` line is round-trippable when its pieces are.
proof fn lemma_concat_joinable(u: Seq<char>, v: Seq<char>)
    requires
        !contains_char(u, '\n'),
        !contains_char(v, '\n'),
        v.len() > 0 ==> v[v.len() - 1] != '\r',
    ensures
        joinable_line(u + seq![' ', '=', ' '] + v),
{
    let a = u + seq![' ', '=', ' '] + v;
    if v.len() > 0 {
        assert(a[a.len() - 1] == v[v.len() - 1]);
    } else {
        assert(a[a.len() - 1] == ' ');
    }
    if contains_char(a, '\n') {
        let j = choose|j: int| 0 <= j < a.len() && a[j] == '\n';
        if j < u.len() {
            assert(a[j] == u[j]);
            assert(contains_char(u, '\n'));
        } else if j < u.len() + 3 {
            assert(a[j] == ' ' || a[j] == '=');
        } else {
            assert(a[j] == v[j - u.len() - 3]);
            assert(contains_char(v, '\n'));
        }
    }
}

/// Applying the same upsert twice to a document text yields output
/// byte-identical to the first application: the patcher is idempotent at
/// the level of the stored text, for arguments in ordinary form and a
/// document none of whose lines ends in a stray carriage return.
pub proof fn lemma_set_idempotent_content(
    c: Seq<char>,
    sec: Seq<char>,
    key: Seq<char>,
    v: Seq<char>,
)
    requires
        plain_section(sec),
        plain_key(key),
        !contains_char(sec, '\n'),
        !contains_char(key, '\n'),
        !contains_char(v, '\n'),
        v.len() > 0 ==> v[v.len() - 1] != '\r',
        forall|i: int|
            0 <= i < spec_split_lines(c).len() ==> (#[trigger] spec_split_lines(c)[i]).len() == 0
                || spec_split_lines(c)[i][spec_split_lines(c)[i].len() - 1] != '\r',
    ensures
        spec_join_lines(
            spec_upsert(
                spec_split_lines(spec_join_lines(spec_upsert(spec_split_lines(c), sec, key, v))),
                sec,
                key,
                v,
            ),
        ) == spec_join_lines(spec_upsert(spec_split_lines(c), sec, key, v)),
{
    let ls = spec_split_lines(c);
    lemma_split_lines_len(c);
    lemma_split_lines_no_newline(c);
    assert(joinable_lines(ls));
    let l1 = spec_upsert(ls, sec, key, v);
    lemma_upsert_joinable(ls, sec, key, v);
    let c1 = spec_join_lines(l1);
    lemma_split_join_id(l1);
    assert(spec_split_lines(c1) == l1);
    lemma_upsert_idempotent(ls, sec, key, v);
}

/// Removing a key from a document that has no header of the section changes
/// nothing: the result is the document itself.
pub proof fn lemma_remove_absent_section_noop(ls: Seq<Seq<char>>, sec: Seq<char>, key: Seq<char>)
    requires
        forall|k: int| 0 <= k < ls.len() ==> !is_header_of(ls[k], sec),
    ensures
        spec_remove(ls, sec, key) == ls,
{
    lemma_find_section_spec(ls, sec);
    if find_section(ls, sec) is Some {
        let j = find_section(ls, sec)->Some_0;
        assert(!is_header_of(ls[j], sec));
    }
}

/// Removing a key that no line of the section assigns changes nothing: the
/// result is the document itself.
pub proof fn lemma_remove_absent_key_noop(ls: Seq<Seq<char>>, sec: Seq<char>, key: Seq<char>)
    requires
        forall|k: int|
            0 <= k < ls.len() ==> !matches_key(#[trigger] ls[k], key),
    ensures
        spec_remove(ls, sec, key) == ls,
{
    match find_section(ls, sec) {
        Some(si) => {
            let e = next_header_from(ls, si + 1);
            lemma_keep_except_id(ls, si + 1, e, key, 0);
            assert(ls.skip(0) =~= ls);
        },
        None => {},
    }
}

} // verus!
