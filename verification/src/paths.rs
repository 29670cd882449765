//! Slash-separated path reasoning: segments, first segment, parent-directory
//! traversal detection, and related exec scanners.
use vstd::prelude::*;

use crate::strutil::find_char;
use crate::strutil::lemma_find_char_spec;
use crate::strutil::str_find_char;
use crate::strutil::substring_string;

verus! {

/// The pieces of `p` between `/` separators, empty pieces included.
pub open spec fn split_slash(p: Seq<char>) -> Seq<Seq<char>>
    decreases p.len(),
{
    if p.len() == 0 {
        seq![Seq::<char>::empty()]
    } else if p[0] == '/' {
        seq![Seq::<char>::empty()] + split_slash(p.skip(1))
    } else {
        let rest = split_slash(p.skip(1));
        seq![seq![p[0]] + rest[0]] + rest.skip(1)
    }
}

/// The subsequence of nonempty pieces.
pub open spec fn nonempty_only(ss: Seq<Seq<char>>) -> Seq<Seq<char>>
    decreases ss.len(),
{
    if ss.len() == 0 {
        Seq::empty()
    } else if ss[0].len() > 0 {
        seq![ss[0]] + nonempty_only(ss.skip(1))
    } else {
        nonempty_only(ss.skip(1))
    }
}

/// The nonempty `/`-separated segments of a path.
pub open spec fn segments(p: Seq<char>) -> Seq<Seq<char>> {
    nonempty_only(split_slash(p))
}

/// The first nonempty segment, if the path has one.
pub open spec fn first_segment(p: Seq<char>) -> Option<Seq<char>> {
    if segments(p).len() == 0 {
        None
    } else {
        Some(segments(p)[0])
    }
}

/// Whether some segment is the parent-directory component `..`.
pub open spec fn has_traversal(p: Seq<char>) -> bool {
    exists|i: int| 0 <= i < segments(p).len() && segments(p)[i] =~= seq!['.', '.']
}

/// Splits a path at every `/`, keeping empty pieces.
pub fn split_slash_exec(p: &str) -> (r: Vec<String>)
    ensures
        r.deep_view() == split_slash(p@),
        r.len() >= 1,
{
    let n = p.unicode_len();
    let mut out: Vec<String> = Vec::new();
    let mut start: usize = 0;
    let mut i: usize = 0;
    proof {
        assert(p@.skip(0) =~= p@);
        assert(out.deep_view() + split_slash(p@) =~= split_slash(p@));
    }
    while i < n
        invariant
            0 <= start <= i <= n,
            n == p@.len(),
            forall|k: int| start <= k < i ==> p@[k] != '/',
            split_slash(p@) == out.deep_view() + split_slash(p@.skip(start as int)),
        decreases n - i,
    {
        if p.get_char(i) == '/' {
            let piece = substring_string(p, start, i);
            proof {
                lemma_split_slash_step(p@, start as int, i as int);
            }
            out.push(piece);
            proof {
                assert(out.deep_view() =~= out.deep_view().subrange(
                    0,
                    out.deep_view().len() - 1,
                ) + seq![out.deep_view()[out.deep_view().len() - 1]]);
                assert(split_slash(p@) =~= out.deep_view() + split_slash(p@.skip(i + 1)));
            }
            start = i + 1;
        }
        i += 1;
    }
    let piece = substring_string(p, start, n);
    proof {
        lemma_split_slash_last(p@, start as int);
    }
    out.push(piece);
    proof {
        assert(out.deep_view() =~= out.deep_view().subrange(0, out.deep_view().len() - 1) + seq![
            out.deep_view()[out.deep_view().len() - 1],
        ]);
        assert(split_slash(p@) =~= out.deep_view());
    }
    out
}

proof fn lemma_split_slash_step(s: Seq<char>, a: int, b: int)
    requires
        0 <= a <= b < s.len(),
        s[b] == '/',
        forall|k: int| a <= k < b ==> s[k] != '/',
    ensures
        split_slash(s.skip(a)) == seq![s.subrange(a, b)] + split_slash(s.skip(b + 1)),
    decreases b - a,
{
    let t = s.skip(a);
    assert(forall|k: int| 0 <= k < t.len() ==> t[k] == s[a + k]);
    if a == b {
        assert(t[0] == '/');
        assert(t.skip(1) =~= s.skip(a + 1));
        assert(s.subrange(a, b) =~= Seq::<char>::empty());
    } else {
        assert(t[0] != '/');
        lemma_split_slash_step(s, a + 1, b);
        let rest = split_slash(s.skip(a + 1));
        assert(t.skip(1) =~= s.skip(a + 1));
        assert(rest[0] == s.subrange(a + 1, b));
        assert(rest.skip(1) =~= split_slash(s.skip(b + 1)));
        assert(seq![t[0]] + rest[0] =~= s.subrange(a, b));
        assert(split_slash(t) == seq![seq![t[0]] + rest[0]] + rest.skip(1));
    }
}

proof fn lemma_split_slash_last(s: Seq<char>, a: int)
    requires
        0 <= a <= s.len(),
        forall|k: int| a <= k < s.len() ==> s[k] != '/',
    ensures
        split_slash(s.skip(a)) == seq![s.subrange(a, s.len() as int)],
    decreases s.len() - a,
{
    let t = s.skip(a);
    assert(forall|k: int| 0 <= k < t.len() ==> t[k] == s[a + k]);
    if t.len() == 0 {
        assert(s.subrange(a, s.len() as int) =~= Seq::<char>::empty());
    } else {
        assert(t[0] != '/');
        lemma_split_slash_last(s, a + 1);
        assert(t.skip(1) =~= s.skip(a + 1));
        let rest = split_slash(s.skip(a + 1));
        assert(rest[0] == s.subrange(a + 1, s.len() as int));
        assert(rest.skip(1) =~= Seq::<Seq<char>>::empty());
        assert(seq![t[0]] + rest[0] =~= s.subrange(a, s.len() as int));
        assert(split_slash(t) == seq![seq![t[0]] + rest[0]] + rest.skip(1));
        assert(split_slash(t) =~= seq![s.subrange(a, s.len() as int)]);
    }
}

/// Keeps the nonempty pieces, in order.
pub fn nonempty_only_exec(ss: &Vec<String>) -> (r: Vec<String>)
    ensures
        r.deep_view() == nonempty_only(ss.deep_view()),
{
    let ghost dv = ss.deep_view();
    let n = ss.len();
    let mut out: Vec<String> = Vec::new();
    let mut i: usize = 0;
    proof {
        assert(dv.skip(0) =~= dv);
        assert(out.deep_view() + nonempty_only(dv) =~= nonempty_only(dv));
    }
    while i < n
        invariant
            0 <= i <= n,
            n == ss.len(),
            dv == ss.deep_view(),
            dv.len() == n,
            nonempty_only(dv) == out.deep_view() + nonempty_only(dv.skip(i as int)),
        decreases n - i,
    {
        assert(dv[i as int] == ss[i as int]@);
        proof {
            assert(dv.skip(i as int)[0] == dv[i as int]);
            assert(dv.skip(i as int).skip(1) =~= dv.skip(i + 1));
        }
        if ss[i].unicode_len() > 0 {
            out.push(ss[i].clone());
            proof {
                assert(out.deep_view() =~= out.deep_view().subrange(
                    0,
                    out.deep_view().len() - 1,
                ) + seq![out.deep_view()[out.deep_view().len() - 1]]);
                assert(nonempty_only(dv) =~= out.deep_view() + nonempty_only(dv.skip(i + 1)));
            }
        } else {
            proof {
                assert(nonempty_only(dv) =~= out.deep_view() + nonempty_only(dv.skip(i + 1)));
            }
        }
        i += 1;
    }
    proof {
        assert(nonempty_only(dv.skip(n as int)) =~= Seq::<Seq<char>>::empty());
        assert(nonempty_only(dv) =~= out.deep_view());
    }
    out
}

/// The nonempty segments of a path.
pub fn segments_exec(p: &str) -> (r: Vec<String>)
    ensures
        r.deep_view() == segments(p@),
{
    let pieces = split_slash_exec(p);
    nonempty_only_exec(&pieces)
}

/// The first nonempty segment of a path, if any.
pub fn first_segment_exec(p: &str) -> (r: Option<String>)
    ensures
        match r {
            Some(s) => first_segment(p@) == Some(s@),
            None => first_segment(p@) is None,
        },
{
    let segs = segments_exec(p);
    if segs.len() == 0 {
        None
    } else {
        assert(segs.deep_view()[0] == segs[0int]@);
        Some(segs[0].clone())
    }
}

/// Whether the path climbs out of its root through a `..` segment.
pub fn has_traversal_exec(p: &str) -> (r: bool)
    ensures
        r == has_traversal(p@),
{
    let segs = segments_exec(p);
    let ghost dv = segs.deep_view();
    let n = segs.len();
    let mut i: usize = 0;
    while i < n
        invariant
            0 <= i <= n,
            n == segs.len(),
            dv == segs.deep_view(),
            dv.len() == n,
            dv == segments(p@),
            forall|k: int| 0 <= k < i ==> !(dv[k] =~= seq!['.', '.']),
        decreases n - i,
    {
        assert(dv[i as int] == segs[i as int]@);
        let sg = &segs[i];
        if sg.unicode_len() == 2 {
            let s = sg.as_str();
            if s.get_char(0) == '.' && s.get_char(1) == '.' {
                proof {
                    assert(dv[i as int] =~= seq!['.', '.']);
                }
                return true;
            }
        }
        proof {
            assert(!(dv[i as int] =~= seq!['.', '.']));
        }
        i += 1;
    }
    false
}

/// The path with every leading `/` removed.
pub open spec fn skip_slashes(p: Seq<char>) -> Seq<char>
    decreases p.len(),
{
    if p.len() > 0 && p[0] == '/' {
        skip_slashes(p.skip(1))
    } else {
        p
    }
}

/// Exec form of `skip_slashes`.
pub fn skip_slashes_exec(p: &str) -> (r: String)
    ensures
        r@ == skip_slashes(p@),
{
    let n = p.unicode_len();
    let mut i: usize = 0;
    proof {
        assert(p@.skip(0) =~= p@);
    }
    while i < n && p.get_char(i) == '/'
        invariant
            0 <= i <= n,
            n == p@.len(),
            forall|k: int| 0 <= k < i ==> p@[k] == '/',
            skip_slashes(p@) == skip_slashes(p@.skip(i as int)),
        decreases n - i,
    {
        proof {
            assert(p@.skip(i as int)[0] == p@[i as int]);
            assert(p@.skip(i as int).skip(1) =~= p@.skip(i + 1));
        }
        i += 1;
    }
    proof {
        if i < n {
            assert(p@.skip(i as int)[0] == p@[i as int]);
        }
        assert(skip_slashes(p@.skip(i as int)) == p@.skip(i as int));
    }
    substring_string(p, i, n)
}

/// The index of the last occurrence of `c`, if any.
pub open spec fn rfind_char(s: Seq<char>, c: char) -> Option<int>
    decreases s.len(),
{
    if s.len() == 0 {
        None
    } else if s[s.len() - 1] == c {
        Some(s.len() - 1)
    } else {
        rfind_char(s.take(s.len() - 1), c)
    }
}

/// `rfind_char` finds an occurrence, and the last one.
pub proof fn lemma_rfind_char_spec(s: Seq<char>, c: char)
    ensures
        match rfind_char(s, c) {
            Some(i) => 0 <= i < s.len() && s[i] == c && forall|k: int| i < k < s.len() ==> s[k]
                != c,
            None => forall|k: int| 0 <= k < s.len() ==> s[k] != c,
        },
    decreases s.len(),
{
    if s.len() > 0 && s[s.len() - 1] != c {
        lemma_rfind_char_spec(s.take(s.len() - 1), c);
        assert(forall|k: int| 0 <= k < s.len() - 1 ==> s.take(s.len() - 1)[k] == s[k]);
    }
}

/// The last index holding `c` is what `rfind_char` returns.
pub proof fn lemma_rfind_char_at(s: Seq<char>, c: char, i: int)
    requires
        0 <= i < s.len(),
        s[i] == c,
        forall|k: int| i < k < s.len() ==> s[k] != c,
    ensures
        rfind_char(s, c) == Some(i),
{
    lemma_rfind_char_spec(s, c);
    match rfind_char(s, c) {
        Some(j) => {
            if j < i {
                assert(s[i] != c);
            }
            if i < j {
                assert(s[j] != c);
            }
        },
        None => {
            assert(s[i] != c);
        },
    }
}

/// Exec last-occurrence search.
pub fn str_rfind_char(s: &str, c: char) -> (r: Option<usize>)
    ensures
        match r {
            Some(i) => rfind_char(s@, c) == Some(i as int),
            None => rfind_char(s@, c) is None,
        },
{
    let n = s.unicode_len();
    let mut i: usize = n;
    while i > 0
        invariant
            0 <= i <= n,
            n == s@.len(),
            forall|k: int| i <= k < n ==> s@[k] != c,
        decreases i,
    {
        i -= 1;
        if s.get_char(i) == c {
            proof {
                lemma_rfind_char_at(s@, c, i as int);
            }
            return Some(i);
        }
    }
    proof {
        lemma_rfind_char_spec(s@, c);
        if rfind_char(s@, c) is Some {
            let j = rfind_char(s@, c)->Some_0;
            assert(s@[j] != c);
        }
    }
    None
}

} // verus!
