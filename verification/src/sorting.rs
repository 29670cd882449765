//! Lexicographic order on strings (by character code point, which matches
//! byte-wise UTF-8 order) and a verified insertion sort with duplicate
//! removal.
use vstd::prelude::*;

use vstd::relations::sorted_by;
use vstd::multiset::Multiset;

verus! {

/// Lexicographic less-or-equal on character sequences.
pub open spec fn lex_le(a: Seq<char>, b: Seq<char>) -> bool
    decreases a.len(),
{
    if a.len() == 0 {
        true
    } else if b.len() == 0 {
        false
    } else if a[0] == b[0] {
        lex_le(a.skip(1), b.skip(1))
    } else {
        a[0] < b[0]
    }
}

/// The order as a binary relation value, for `sorted_by`.
pub open spec fn lex_leq() -> spec_fn(Seq<char>, Seq<char>) -> bool {
    |a: Seq<char>, b: Seq<char>| lex_le(a, b)
}

/// The order is total.
pub proof fn lemma_lex_total(a: Seq<char>, b: Seq<char>)
    ensures
        lex_le(a, b) || lex_le(b, a),
    decreases a.len(),
{
    if a.len() > 0 && b.len() > 0 && a[0] == b[0] {
        lemma_lex_total(a.skip(1), b.skip(1));
    }
}

/// The order is transitive.
pub proof fn lemma_lex_trans(a: Seq<char>, b: Seq<char>, c: Seq<char>)
    requires
        lex_le(a, b),
        lex_le(b, c),
    ensures
        lex_le(a, c),
    decreases a.len(),
{
    if a.len() > 0 {
        if a[0] == b[0] && b[0] == c[0] {
            lemma_lex_trans(a.skip(1), b.skip(1), c.skip(1));
        }
    }
}

/// The order is antisymmetric.
pub proof fn lemma_lex_antisym(a: Seq<char>, b: Seq<char>)
    requires
        lex_le(a, b),
        lex_le(b, a),
    ensures
        a == b,
    decreases a.len(),
{
    if a.len() == 0 {
        assert(b.len() == 0);
        assert(a =~= b);
    } else {
        assert(a[0] == b[0]);
        lemma_lex_antisym(a.skip(1), b.skip(1));
        assert(a =~= seq![a[0]] + a.skip(1));
        assert(b =~= seq![b[0]] + b.skip(1));
    }
}

/// Exec comparison over views.
pub fn str_lex_le(a: &str, b: &str) -> (r: bool)
    ensures
        r == lex_le(a@, b@),
{
    let n = a.unicode_len();
    let m = b.unicode_len();
    let mut i: usize = 0;
    proof {
        assert(a@.skip(0) =~= a@);
        assert(b@.skip(0) =~= b@);
    }
    while i < n && i < m
        invariant
            0 <= i <= n,
            0 <= i <= m,
            n == a@.len(),
            m == b@.len(),
            lex_le(a@, b@) == lex_le(a@.skip(i as int), b@.skip(i as int)),
        decreases n - i,
    {
        let ca = a.get_char(i);
        let cb = b.get_char(i);
        proof {
            assert(a@.skip(i as int)[0] == a@[i as int]);
            assert(b@.skip(i as int)[0] == b@[i as int]);
            assert(a@.skip(i as int).skip(1) =~= a@.skip(i + 1));
            assert(b@.skip(i as int).skip(1) =~= b@.skip(i + 1));
        }
        if ca != cb {
            return ca < cb;
        }
        i += 1;
    }
    proof {
        if i == n {
            assert(a@.skip(i as int).len() == 0);
        } else {
            assert(b@.skip(i as int).len() == 0);
            assert(a@.skip(i as int).len() > 0);
        }
    }
    i == n
}

/// Multiset of an insertion.
proof fn lemma_insert_to_multiset<A>(s: Seq<A>, i: int, x: A)
    requires
        0 <= i <= s.len(),
    ensures
        s.insert(i, x).to_multiset() == s.to_multiset().insert(x),
{
    broadcast use vstd::seq_lib::group_to_multiset_ensures;

    let t = s.insert(i, x);
    assert(t =~= s.take(i) + (seq![x] + s.skip(i)));
    vstd::seq_lib::lemma_multiset_commutative(s.take(i), seq![x] + s.skip(i));
    vstd::seq_lib::lemma_multiset_commutative(seq![x], s.skip(i));
    assert(seq![x] =~= Seq::<A>::empty().push(x));
    assert(seq![x].to_multiset() =~= Multiset::<A>::empty().insert(x));
    assert(s =~= s.take(i) + s.skip(i));
    vstd::seq_lib::lemma_multiset_commutative(s.take(i), s.skip(i));
    assert(t.to_multiset() =~= s.to_multiset().insert(x));
}

/// Sorts strings lexicographically; the result is a sorted rearrangement of
/// the input.
pub fn sort_strings(v: &Vec<String>) -> (r: Vec<String>)
    ensures
        sorted_by(r.deep_view(), lex_leq()),
        r.deep_view().to_multiset() == v.deep_view().to_multiset(),
{
    broadcast use vstd::seq_lib::group_to_multiset_ensures;

    let ghost dv = v.deep_view();
    let n = v.len();
    let mut out: Vec<String> = Vec::new();
    let mut i: usize = 0;
    proof {
        assert(dv.take(0) =~= Seq::<Seq<char>>::empty());
        assert(out.deep_view() =~= Seq::<Seq<char>>::empty());
        assert(out.deep_view().to_multiset() =~= dv.take(0).to_multiset());
    }
    while i < n
        invariant
            0 <= i <= n,
            n == v.len(),
            dv == v.deep_view(),
            dv.len() == n,
            sorted_by(out.deep_view(), lex_leq()),
            out.deep_view().to_multiset() == dv.take(i as int).to_multiset(),
        decreases n - i,
    {
        assert(dv[i as int] == v[i as int]@);
        let x = v[i].clone();
        let ghost xv = x@;
        let ghost odv = out.deep_view();
        let m = out.len();
        let mut pos: usize = 0;
        while pos < m && str_lex_le(out[pos].as_str(), x.as_str())
            invariant
                0 <= pos <= m,
                m == out.len(),
                odv == out.deep_view(),
                odv.len() == m,
                x@ == xv,
                forall|k: int| 0 <= k < pos ==> lex_le(odv[k], xv),
            decreases m - pos,
        {
            assert(odv[pos as int] == out[pos as int]@);
            pos += 1;
        }
        proof {
            if pos < m {
                assert(odv[pos as int] == out[pos as int]@);
                assert(!lex_le(odv[pos as int], xv));
                lemma_lex_total(odv[pos as int], xv);
                assert(lex_le(xv, odv[pos as int]));
            }
        }
        out.insert(pos, x);
        proof {
            let ndv = out.deep_view();
            assert(ndv =~= odv.insert(pos as int, xv));
            odv.insert_ensures(pos as int, xv);
            assert forall|p: int, q: int| 0 <= p < q < ndv.len() implies lex_leq()(
                ndv[p],
                ndv[q],
            ) by {
                let pp = if p < pos { odv[p] } else if p == pos { xv } else { odv[p - 1] };
                assert(ndv[p] == pp);
                let qq = if q < pos { odv[q] } else if q == pos { xv } else { odv[q - 1] };
                assert(ndv[q] == qq);
                if q < pos || (p > pos) || (q == pos && p < pos) {
                    // both among existing elements or existing vs x with p < pos
                    if q == pos && p < pos {
                        assert(lex_le(odv[p], xv));
                    }
                } else if p == pos {
                    // x versus a later existing element
                    assert(pos < m);
                    assert(lex_le(xv, odv[pos as int]));
                    if q - 1 > pos {
                        assert(lex_leq()(odv[pos as int], odv[q - 1]));
                        lemma_lex_trans(xv, odv[pos as int], odv[q - 1]);
                    }
                } else if p < pos && q > pos {
                    assert(lex_leq()(odv[p], odv[q - 1]));
                }
            }
            lemma_insert_to_multiset(odv, pos as int, xv);
            assert(dv.take(i + 1) =~= dv.take(i as int).push(xv));
            vstd::seq_lib::to_multiset_build(dv.take(i as int), xv);
            assert(dv.take(i + 1).to_multiset() =~= dv.take(i as int).to_multiset().insert(xv));
        }
        i += 1;
    }
    proof {
        assert(dv.take(n as int) =~= dv);
    }
    out
}

/// Sorts strings and removes duplicates; the result is sorted, free of
/// repeats, and holds exactly the views the input holds.
pub fn sort_dedup_strings(v: &Vec<String>) -> (r: Vec<String>)
    ensures
        sorted_by(r.deep_view(), lex_leq()),
        forall|p: int, q: int|
            0 <= p < q < r.deep_view().len() ==> r.deep_view()[p] != r.deep_view()[q],
        forall|x: Seq<char>| #[trigger] r.deep_view().contains(x) <==> v.deep_view().contains(x),
{
    broadcast use vstd::seq_lib::group_to_multiset_ensures;

    let s = sort_strings(v);
    let ghost sdv = s.deep_view();
    let ghost dv = v.deep_view();
    proof {
        assert forall|x: Seq<char>| #[trigger] sdv.contains(x) <==> dv.contains(x) by {
            assert(sdv.contains(x) <==> sdv.to_multiset().contains(x));
            assert(dv.contains(x) <==> dv.to_multiset().contains(x));
        }
    }
    let n = s.len();
    let mut out: Vec<String> = Vec::new();
    let mut i: usize = 0;
    proof {
        assert(sdv.take(0) =~= Seq::<Seq<char>>::empty());
    }
    while i < n
        invariant
            0 <= i <= n,
            n == s.len(),
            sdv == s.deep_view(),
            dv == v.deep_view(),
            sdv.len() == n,
            sorted_by(sdv, lex_leq()),
            sorted_by(out.deep_view(), lex_leq()),
            forall|p: int, q: int|
                0 <= p < q < out.deep_view().len() ==> out.deep_view()[p] != out.deep_view()[q],
            forall|x: Seq<char>|
                #[trigger] out.deep_view().contains(x) <==> sdv.take(i as int).contains(x),
            i > 0 ==> out.deep_view().len() > 0 && out.deep_view()[out.deep_view().len() - 1]
                == sdv[i - 1],
            forall|k: int|
                0 <= k < out.deep_view().len() ==> exists|j: int|
                    0 <= j < i && #[trigger] out.deep_view()[k] == sdv[j],
        decreases n - i,
    {
        assert(sdv[i as int] == s[i as int]@);
        let push_it: bool = if out.len() == 0 {
            true
        } else {
            let last = out.len() - 1;
            assert(out.deep_view()[last as int] == out[last as int]@);
            !crate::archive::str_eq_exec(out[last].as_str(), s[i].as_str())
        };
        let ghost odv = out.deep_view();
        proof {
            assert(sdv.take(i + 1) =~= sdv.take(i as int).push(sdv[i as int]));
        }
        if push_it {
            out.push(s[i].clone());
            proof {
                let ndv = out.deep_view();
                assert(ndv =~= odv.push(sdv[i as int]));
                // every element already kept is strictly below the new one
                assert forall|k: int| 0 <= k < odv.len() implies odv[k] != sdv[i as int] by {
                    if odv[k] == sdv[i as int] {
                        let j = choose|j: int| 0 <= j < i && odv[k] == sdv[j];
                        let last = odv.len() - 1;
                        assert(odv[last] == sdv[i - 1]);
                        assert(lex_le(sdv[i as int], odv[last])) by {
                            assert(lex_le(sdv[j], odv[last])) by {
                                if j < i - 1 {
                                    assert(lex_leq()(sdv[j], sdv[i - 1]));
                                } else {
                                    lemma_lex_total(sdv[j], sdv[j]);
                                }
                            }
                        }
                        assert(lex_le(odv[last], sdv[i as int])) by {
                            assert(lex_leq()(sdv[i - 1], sdv[i as int]));
                        }
                        lemma_lex_antisym(odv[last], sdv[i as int]);
                        assert(odv[last] == sdv[i as int]);
                    }
                }
                assert forall|p: int, q: int| 0 <= p < q < ndv.len() implies ndv[p] != ndv[q] by {
                    if q == ndv.len() - 1 {
                        assert(ndv[p] == odv[p]);
                    }
                }
                assert forall|p: int, q: int| 0 <= p < q < ndv.len() implies lex_leq()(
                    ndv[p],
                    ndv[q],
                ) by {
                    if q == ndv.len() - 1 && p < ndv.len() - 1 {
                        let j = choose|j: int| 0 <= j < i && odv[p] == sdv[j];
                        if j < i {
                            assert(lex_leq()(sdv[j], sdv[i as int]));
                        }
                    }
                }
                assert forall|x: Seq<char>| #[trigger] ndv.contains(x) <==> sdv.take(
                    i + 1,
                ).contains(x) by {
                    if ndv.contains(x) {
                        let k = choose|k: int| 0 <= k < ndv.len() && #[trigger] ndv[k] == x;
                        if k < ndv.len() - 1 {
                            assert(odv[k] == x);
                            assert(odv.contains(x));
                            assert(sdv.take(i as int).contains(x));
                            let k2 = choose|k2: int|
                                0 <= k2 < i && #[trigger] sdv.take(i as int)[k2] == x;
                            assert(sdv.take(i + 1)[k2] == x);
                        } else {
                            assert(sdv.take(i + 1)[i as int] == x);
                        }
                    }
                    if sdv.take(i + 1).contains(x) {
                        let k = choose|k: int| 0 <= k < i + 1 && #[trigger] sdv.take(i + 1)[k] == x;
                        if k < i {
                            assert(sdv.take(i as int)[k] == x);
                            assert(sdv.take(i as int).contains(x));
                            assert(odv.contains(x));
                            let k2 = choose|k2: int| 0 <= k2 < odv.len() && #[trigger] odv[k2] == x;
                            assert(ndv[k2] == x);
                        } else {
                            assert(ndv[ndv.len() - 1] == x);
                        }
                    }
                }
                assert forall|k: int| 0 <= k < ndv.len() implies exists|j: int|
                    0 <= j < i + 1 && #[trigger] ndv[k] == sdv[j] by {
                    if k < ndv.len() - 1 {
                        let j = choose|j: int| 0 <= j < i && odv[k] == sdv[j];
                        assert(ndv[k] == sdv[j]);
                    } else {
                        assert(ndv[k] == sdv[i as int]);
                    }
                }
            }
        } else {
            proof {
                let last = odv.len() - 1;
                assert(out[last as int]@ == s[i as int]@);
                assert(odv[last] == sdv[i as int]);
                assert forall|x: Seq<char>| #[trigger] odv.contains(x) <==> sdv.take(
                    i + 1,
                ).contains(x) by {
                    if odv.contains(x) {
                        assert(sdv.take(i as int).contains(x));
                        let k = choose|k: int| 0 <= k < i && #[trigger] sdv.take(i as int)[k] == x;
                        assert(sdv.take(i + 1)[k] == x);
                    }
                    if sdv.take(i + 1).contains(x) {
                        let k = choose|k: int| 0 <= k < i + 1 && #[trigger] sdv.take(i + 1)[k] == x;
                        if k < i {
                            assert(sdv.take(i as int)[k] == x);
                            assert(sdv.take(i as int).contains(x));
                        } else {
                            assert(odv[last] == x);
                            assert(odv.contains(x));
                        }
                    }
                }
                assert forall|k: int| 0 <= k < odv.len() implies exists|j: int|
                    0 <= j < i + 1 && #[trigger] odv[k] == sdv[j] by {
                    let j = choose|j: int| 0 <= j < i && odv[k] == sdv[j];
                    assert(odv[k] == sdv[j]);
                }
            }
        }
        i += 1;
    }
    proof {
        assert(sdv.take(n as int) =~= sdv);
    }
    out
}


} // verus!
