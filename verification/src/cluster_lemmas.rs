//! What holds of the fold of candidates into representatives, whatever
//! their forms: when folding twice is folding once, and when the order of
//! the candidates does not matter.

use crate::compare::{lemma_similarity_symmetric, word_set};
use crate::reduce::{
    absorb, alike, clustered, lemma_first_match_unique, matches_at, matches_none, CandidateView,
};
use crate::text::words;
use vstd::prelude::*;

verus! {

/// A candidate whose form has no word. Such a candidate is like no
/// candidate, itself included.
pub open spec fn wordless(v: CandidateView) -> bool {
    words(v.form).len() == 0
}

/// No candidate is like a candidate before it.
pub open spec fn pairwise_unlike(s: Seq<CandidateView>) -> bool {
    forall|i: int, j: int| 0 <= i < j < s.len() ==> !alike(#[trigger] s[j], #[trigger] s[i])
}

/// No candidate ranks higher than a candidate before it.
pub open spec fn ranks_steady(s: Seq<CandidateView>) -> bool {
    forall|i: int, j: int|
        0 <= i < j < s.len() ==> (#[trigger] s[j]).rank() <= (#[trigger] s[i]).rank()
}

/// Likeness does not depend on which candidate comes first.
pub proof fn lemma_alike_symmetric(x: CandidateView, y: CandidateView)
    ensures
        alike(x, y) == alike(y, x),
{
    lemma_similarity_symmetric(x.form, y.form);
}

/// Only candidates with words are like anything.
pub proof fn lemma_alike_needs_words(x: CandidateView, y: CandidateView)
    requires
        alike(x, y),
    ensures
        !wordless(x),
        !wordless(y),
{
    let a = word_set(x.form);
    let b = word_set(y.form);
    vstd::seq_lib::seq_to_set_is_finite(words(x.form));
    vstd::seq_lib::seq_to_set_is_finite(words(y.form));
    vstd::set_lib::lemma_len_intersect(a, b);
    vstd::set_lib::lemma_len_intersect(b, a);
    assert(a.intersect(b) == b.intersect(a));
    assert(a.intersect(b).len() > 0);
    if wordless(x) {
        assert(a == Set::<Seq<char>>::empty());
    }
    if wordless(y) {
        assert(b == Set::<Seq<char>>::empty());
    }
}

/// A candidate with words is like itself.
pub proof fn lemma_alike_reflexive(x: CandidateView)
    requires
        !wordless(x),
    ensures
        alike(x, x),
{
    let w = words(x.form);
    let a = word_set(x.form);
    vstd::seq_lib::seq_to_set_is_finite(w);
    assert(a.intersect(a) == a);
    assert(a.union(a) == a);
    assert(a.contains(w[0]));
    vstd::set_lib::lemma_set_empty_equivalency_len(a);
}

/// Where `x` is like one of the first `n` representatives, one of them is
/// the first that it is like.
pub proof fn lemma_first_match_exists(reps: Seq<CandidateView>, x: CandidateView, n: int) -> (i:
    int)
    requires
        0 <= n <= reps.len(),
        exists|k: int| 0 <= k < n && alike(x, #[trigger] reps[k]),
    ensures
        matches_at(reps, x, i),
        i < n,
    decreases n,
{
    if exists|k: int| 0 <= k < n - 1 && alike(x, #[trigger] reps[k]) {
        lemma_first_match_exists(reps, x, n - 1)
    } else {
        let k = choose|k: int| 0 <= k < n && alike(x, #[trigger] reps[k]);
        assert(k == n - 1);
        n - 1
    }
}

/// What taking a candidate in does: it is appended where it is like no
/// representative; else the first that it is like stays, or gives way to it
/// if the candidate ranks strictly higher.
pub proof fn lemma_absorb(reps: Seq<CandidateView>, x: CandidateView) -> (i: int)
    ensures
        matches_none(reps, x) ==> absorb(reps, x) == reps.push(x),
        !matches_none(reps, x) ==> matches_at(reps, x, i) && absorb(reps, x) == if x.rank()
            > reps[i].rank() {
            reps.update(i, x)
        } else {
            reps
        },
{
    if matches_none(reps, x) {
        0
    } else {
        let i = lemma_first_match_exists(reps, x, reps.len() as int);
        let c = choose|c: int| matches_at(reps, x, c);
        lemma_first_match_unique(reps, x, i, c);
        i
    }
}

/// Folding never yields more candidates than it was given.
pub proof fn lemma_clustered_len(s: Seq<CandidateView>)
    ensures
        clustered(s).len() <= s.len(),
    decreases s.len(),
{
    if s.len() > 0 {
        lemma_clustered_len(s.drop_last());
        lemma_absorb(clustered(s.drop_last()), s.last());
    }
}

/// Two candidates become one exactly when they are alike, and then the
/// second stays only if it ranks strictly higher.
pub proof fn lemma_clustered_pair(a: CandidateView, b: CandidateView)
    ensures
        clustered(seq![a, b]) == if !alike(b, a) {
            seq![a, b]
        } else if b.rank() > a.rank() {
            seq![b]
        } else {
            seq![a]
        },
{
    let both = seq![a, b];
    let one = seq![a];
    assert(both.drop_last() == one);
    assert(one.drop_last() == Seq::<CandidateView>::empty());
    assert(clustered(one.drop_last()) == Seq::<CandidateView>::empty());
    assert(matches_none(Seq::<CandidateView>::empty(), a));
    assert(clustered(one) == one) by {
        assert(Seq::<CandidateView>::empty().push(a) == one);
    }
    let i = lemma_absorb(one, b);
    if alike(b, a) {
        assert(alike(b, one[0]));
        assert(!matches_none(one, b));
        assert(i == 0);
        assert(one.update(0, b) == seq![b]);
    } else {
        assert(matches_none(one, b));
        assert(one.push(b) == both);
    }
}

/// Every representative is one of the candidates.
pub proof fn lemma_clustered_members(s: Seq<CandidateView>)
    ensures
        forall|k: int| 0 <= k < clustered(s).len() ==> s.contains(#[trigger] clustered(s)[k]),
    decreases s.len(),
{
    if s.len() > 0 {
        let before = s.drop_last();
        let x = s.last();
        let r = clustered(before);
        lemma_clustered_members(before);
        let i = lemma_absorb(r, x);
        assert(before.push(x) == s);
        assert forall|k: int| 0 <= k < clustered(s).len() implies s.contains(
            #[trigger] clustered(s)[k],
        ) by {
            lemma_push_contains(before, x, clustered(s)[k]);
            if k < r.len() && clustered(s)[k] == r[k] {
                assert(before.contains(r[k]));
            }
        }
    }
}

/// Candidates of which none is like an earlier one are their own
/// representatives.
pub proof fn lemma_clustered_fixed_point(s: Seq<CandidateView>)
    requires
        pairwise_unlike(s),
    ensures
        clustered(s) == s,
    decreases s.len(),
{
    if s.len() > 0 {
        let before = s.drop_last();
        assert(pairwise_unlike(before)) by {
            assert forall|i: int, j: int| 0 <= i < j < before.len() implies !alike(
                #[trigger] before[j],
                #[trigger] before[i],
            ) by {
                assert(before[j] == s[j] && before[i] == s[i]);
            }
        }
        lemma_clustered_fixed_point(before);
        assert(matches_none(before, s.last())) by {
            assert forall|k: int| 0 <= k < before.len() implies !alike(
                s.last(),
                #[trigger] before[k],
            ) by {
                assert(before[k] == s[k]);
                assert(s.last() == s[s.len() - 1]);
            }
        }
        assert(before.push(s.last()) == s);
    }
}

/// Candidates that are their own representatives hold none that is like an
/// earlier one.
pub proof fn lemma_fixed_point_is_unlike(s: Seq<CandidateView>)
    requires
        clustered(s) == s,
    ensures
        pairwise_unlike(s),
    decreases s.len(),
{
    if s.len() > 0 {
        let before = s.drop_last();
        let x = s.last();
        lemma_clustered_len(before);
        let i = lemma_absorb(clustered(before), x);
        if !matches_none(clustered(before), x) {
            assert(clustered(s).len() == clustered(before).len());
            assert(false);
        }
        assert(clustered(before).push(x) == s);
        assert(clustered(before) == before) by {
            assert(clustered(before).push(x).drop_last() == clustered(before));
        }
        lemma_fixed_point_is_unlike(before);
        assert forall|i: int, j: int| 0 <= i < j < s.len() implies !alike(
            #[trigger] s[j],
            #[trigger] s[i],
        ) by {
            if j < s.len() - 1 {
                assert(before[j] == s[j] && before[i] == s[i]);
            } else {
                assert(before[i] == s[i]);
            }
        }
    }
}

/// Where no candidate ranks higher than a candidate before it, no
/// representative is ever replaced: each is one of the candidates, and none
/// is like an earlier one.
pub proof fn lemma_steady_ranks_keep_apart(s: Seq<CandidateView>)
    requires
        ranks_steady(s),
    ensures
        pairwise_unlike(clustered(s)),
        forall|k: int| 0 <= k < clustered(s).len() ==> s.contains(#[trigger] clustered(s)[k]),
    decreases s.len(),
{
    if s.len() > 0 {
        let before = s.drop_last();
        let x = s.last();
        let reps = clustered(before);
        assert(ranks_steady(before)) by {
            assert forall|i: int, j: int| 0 <= i < j < before.len() implies (
            #[trigger] before[j]).rank() <= (#[trigger] before[i]).rank() by {
                assert(before[j] == s[j] && before[i] == s[i]);
            }
        }
        lemma_steady_ranks_keep_apart(before);
        let i = lemma_absorb(reps, x);
        assert forall|k: int| 0 <= k < reps.len() implies s.contains(#[trigger] reps[k]) && x.rank()
            <= reps[k].rank() by {
            let m = choose|m: int| 0 <= m < before.len() && before[m] == reps[k];
            assert(s[m] == reps[k]);
            assert(x == s[s.len() - 1]);
        }
        assert(s[s.len() - 1] == x);
        if matches_none(reps, x) {
            assert forall|a: int, b: int| 0 <= a < b < reps.push(x).len() implies !alike(
                #[trigger] reps.push(x)[b],
                #[trigger] reps.push(x)[a],
            ) by {
                if b < reps.len() {
                    assert(reps.push(x)[b] == reps[b] && reps.push(x)[a] == reps[a]);
                } else {
                    assert(reps.push(x)[a] == reps[a]);
                }
            }
        }
    }
}

/// Where no candidate ranks higher than a candidate before it, as where no
/// candidate has a score, folding what was folded changes nothing.
pub proof fn lemma_clustered_steady(s: Seq<CandidateView>)
    requires
        ranks_steady(s),
    ensures
        clustered(clustered(s)) == clustered(s),
{
    lemma_steady_ranks_keep_apart(s);
    lemma_clustered_fixed_point(clustered(s));
}

/// Among the candidates of `s`, being alike carries over: a candidate like a
/// second that is like a third is like the third.
pub open spec fn clusters_closed(s: Seq<CandidateView>) -> bool {
    forall|x: CandidateView, y: CandidateView, z: CandidateView|
        s.contains(x) && s.contains(y) && s.contains(z) && #[trigger] alike(x, y)
            && #[trigger] alike(y, z) ==> alike(x, z)
}

/// No candidate of `s` that is like `x` ranks higher than `x`.
pub open spec fn leads(s: Seq<CandidateView>, x: CandidateView) -> bool {
    forall|y: CandidateView| s.contains(y) && #[trigger] alike(y, x) ==> y.rank() <= x.rank()
}

/// Two candidates of `s` that are alike and both rank highest among their
/// like are the same candidate.
pub open spec fn leaders_agree(s: Seq<CandidateView>) -> bool {
    forall|x: CandidateView, y: CandidateView|
        s.contains(x) && s.contains(y) && #[trigger] alike(x, y) && x.rank() == y.rank() && leads(
            s,
            x,
        ) ==> x == y
}

/// Whether `y` is like one of `r`.
pub open spec fn represented(r: Seq<CandidateView>, y: CandidateView) -> bool {
    exists|k: int| 0 <= k < r.len() && alike(y, #[trigger] r[k])
}

/// What holds of the representatives `r` of the candidates `s` where being
/// alike carries over: each is a candidate of `s`; no two are alike; every
/// candidate with words is like one of them, and ranks no higher than it;
/// every candidate without words is kept as often as it came; no candidate
/// with words is kept twice.
pub open spec fn settled(s: Seq<CandidateView>, r: Seq<CandidateView>) -> bool {
    &&& forall|k: int| 0 <= k < r.len() ==> s.contains(#[trigger] r[k])
    &&& forall|a: int, b: int|
        0 <= a < r.len() && 0 <= b < r.len() && a != b ==> !alike(#[trigger] r[a], #[trigger] r[b])
    &&& forall|y: CandidateView| #[trigger] s.contains(y) && !wordless(y) ==> represented(r, y)
    &&& forall|k: int, y: CandidateView|
        0 <= k < r.len() && s.contains(y) && #[trigger] alike(y, r[k]) ==> y.rank() <= r[k].rank()
    &&& forall|v: CandidateView|
        wordless(v) ==> #[trigger] r.to_multiset().count(v) == s.to_multiset().count(v)
    &&& forall|v: CandidateView| !wordless(v) ==> #[trigger] r.to_multiset().count(v) <= 1
}

/// How often a value occurs after one more was appended.
pub proof fn lemma_count_push<A>(s: Seq<A>, x: A, v: A)
    ensures
        s.push(x).to_multiset().count(v) == s.to_multiset().count(v) + if x == v {
            1nat
        } else {
            0nat
        },
{
    broadcast use vstd::multiset::group_multiset_axioms;

    vstd::seq_lib::to_multiset_build(s, x);
}

/// How often a value occurs after one place was given to another value.
pub proof fn lemma_count_update<A>(s: Seq<A>, i: int, x: A, v: A)
    requires
        0 <= i < s.len(),
    ensures
        s.update(i, x).to_multiset().count(v) + (if s[i] == v {
            1nat
        } else {
            0nat
        }) == s.to_multiset().count(v) + if x == v {
            1nat
        } else {
            0nat
        },
{
    broadcast use vstd::multiset::group_multiset_axioms;

    vstd::seq_lib::to_multiset_update(s, i, x);
    vstd::seq_lib::to_multiset_contains(s, s[i]);
    assert(s.contains(s[i]));
}

/// A value occurs in a sequence exactly when it is counted in it.
pub proof fn lemma_count_contains<A>(s: Seq<A>, v: A)
    ensures
        s.contains(v) <==> s.to_multiset().count(v) > 0,
{
    vstd::seq_lib::to_multiset_contains(s, v);
}

/// A value is among `s` with `x` appended exactly when it is among `s` or is
/// `x`.
pub proof fn lemma_push_contains<A>(s: Seq<A>, x: A, v: A)
    ensures
        s.push(x).contains(v) <==> s.contains(v) || v == x,
{
    if s.push(x).contains(v) {
        let i = choose|i: int| 0 <= i < s.push(x).len() && s.push(x)[i] == v;
        if i < s.len() {
            assert(s[i] == v);
        }
    }
    if s.contains(v) {
        let i = choose|i: int| 0 <= i < s.len() && s[i] == v;
        assert(s.push(x)[i] == v);
    }
    if v == x {
        assert(s.push(x)[s.len() as int] == v);
    }
}

/// Being alike carries over among fewer candidates if it does among more.
pub proof fn lemma_clusters_closed_before(s: Seq<CandidateView>, x: CandidateView)
    requires
        clusters_closed(s.push(x)),
    ensures
        clusters_closed(s),
{
    assert forall|a: CandidateView, b: CandidateView, c: CandidateView|
        s.contains(a) && s.contains(b) && s.contains(c) && #[trigger] alike(a, b)
            && #[trigger] alike(b, c) implies alike(a, c) by {
        lemma_push_contains(s, x, a);
        lemma_push_contains(s, x, b);
        lemma_push_contains(s, x, c);
    }
}

/// A candidate that is like the representative at `i` is like no other
/// representative.
pub proof fn lemma_single_match(
    s: Seq<CandidateView>,
    r: Seq<CandidateView>,
    x: CandidateView,
    i: int,
    k: int,
)
    requires
        settled(s, r),
        clusters_closed(s.push(x)),
        0 <= i < r.len(),
        0 <= k < r.len(),
        i != k,
        alike(x, r[i]),
    ensures
        !alike(x, r[k]),
{
    if alike(x, r[k]) {
        lemma_alike_symmetric(x, r[i]);
        lemma_push_contains(s, x, x);
        lemma_push_contains(s, x, r[i]);
        lemma_push_contains(s, x, r[k]);
        assert(alike(r[i], x) && alike(x, r[k]));
        assert(alike(r[i], r[k]));
    }
}

/// The representatives stay settled when a candidate that is like none of
/// them is appended.
pub proof fn lemma_settled_push(s: Seq<CandidateView>, r: Seq<CandidateView>, x: CandidateView)
    requires
        settled(s, r),
        clusters_closed(s.push(x)),
        matches_none(r, x),
    ensures
        settled(s.push(x), r.push(x)),
{
    let s2 = s.push(x);
    let r2 = r.push(x);
    assert forall|k: int| 0 <= k < r2.len() implies s2.contains(#[trigger] r2[k]) by {
        lemma_push_contains(s, x, r2[k]);
        if k < r.len() {
            assert(r2[k] == r[k]);
        }
    }
    assert forall|a: int, b: int| 0 <= a < r2.len() && 0 <= b < r2.len() && a != b implies !alike(
        #[trigger] r2[a],
        #[trigger] r2[b],
    ) by {
        if a < r.len() && b < r.len() {
            assert(r2[a] == r[a] && r2[b] == r[b]);
        } else if a < r.len() {
            assert(r2[a] == r[a]);
            lemma_alike_symmetric(r[a], x);
        } else {
            assert(r2[b] == r[b]);
        }
    }
    assert forall|y: CandidateView| #[trigger] s2.contains(y) && !wordless(y) implies represented(
        r2,
        y,
    ) by {
        lemma_push_contains(s, x, y);
        if s.contains(y) {
            let k = choose|k: int| 0 <= k < r.len() && alike(y, #[trigger] r[k]);
            assert(r2[k] == r[k]);
        } else {
            lemma_alike_reflexive(x);
            assert(r2[r.len() as int] == x);
        }
    }
    assert forall|k: int, y: CandidateView|
        0 <= k < r2.len() && s2.contains(y) && #[trigger] alike(y, r2[k]) implies y.rank()
        <= r2[k].rank() by {
        lemma_push_contains(s, x, y);
        if k < r.len() {
            assert(r2[k] == r[k]);
            if !s.contains(y) {
                assert(alike(x, r[k]));
            }
        } else {
            assert(r2[k] == x);
            if s.contains(y) && y != x {
                lemma_alike_needs_words(y, x);
                assert(represented(r, y));
                let m = choose|m: int| 0 <= m < r.len() && alike(y, #[trigger] r[m]);
                lemma_alike_symmetric(x, y);
                lemma_push_contains(s, x, x);
                lemma_push_contains(s, x, r[m]);
                assert(alike(x, y) && alike(y, r[m]));
                assert(alike(x, r[m]));
            }
        }
    }
    assert forall|v: CandidateView| wordless(v) implies #[trigger] r2.to_multiset().count(v)
        == s2.to_multiset().count(v) by {
        lemma_count_push(s, x, v);
        lemma_count_push(r, x, v);
    }
    assert forall|v: CandidateView| !wordless(v) implies #[trigger] r2.to_multiset().count(v)
        <= 1 by {
        lemma_count_push(r, x, v);
        if v == x {
            lemma_count_contains(r, x);
            if r.contains(x) {
                let k = choose|k: int| 0 <= k < r.len() && r[k] == x;
                lemma_alike_reflexive(x);
                assert(alike(x, r[k]));
            }
        }
    }
}

/// The representatives stay settled when a candidate comes that is like one
/// of them and does not rank higher.
pub proof fn lemma_settled_keep(
    s: Seq<CandidateView>,
    r: Seq<CandidateView>,
    x: CandidateView,
    i: int,
)
    requires
        settled(s, r),
        clusters_closed(s.push(x)),
        matches_at(r, x, i),
        x.rank() <= r[i].rank(),
    ensures
        settled(s.push(x), r),
{
    let s2 = s.push(x);
    lemma_alike_needs_words(x, r[i]);
    assert forall|k: int| 0 <= k < r.len() implies s2.contains(#[trigger] r[k]) by {
        lemma_push_contains(s, x, r[k]);
    }
    assert forall|y: CandidateView| #[trigger] s2.contains(y) && !wordless(y) implies represented(
        r,
        y,
    ) by {
        lemma_push_contains(s, x, y);
        if !s.contains(y) {
            assert(alike(y, r[i]));
        }
    }
    assert forall|k: int, y: CandidateView|
        0 <= k < r.len() && s2.contains(y) && #[trigger] alike(y, r[k]) implies y.rank()
        <= r[k].rank() by {
        lemma_push_contains(s, x, y);
        if !s.contains(y) {
            if k != i {
                lemma_single_match(s, r, x, i, k);
            }
        }
    }
    assert forall|v: CandidateView| wordless(v) implies #[trigger] r.to_multiset().count(v)
        == s2.to_multiset().count(v) by {
        lemma_count_push(s, x, v);
    }
}

/// The representatives stay settled when a candidate takes the place of the
/// one that it is like and outranks.
pub proof fn lemma_settled_replace(
    s: Seq<CandidateView>,
    r: Seq<CandidateView>,
    x: CandidateView,
    i: int,
)
    requires
        settled(s, r),
        clusters_closed(s.push(x)),
        matches_at(r, x, i),
        x.rank() > r[i].rank(),
    ensures
        settled(s.push(x), r.update(i, x)),
{
    let s2 = s.push(x);
    let r2 = r.update(i, x);
    lemma_alike_needs_words(x, r[i]);
    lemma_alike_reflexive(x);
    lemma_alike_symmetric(x, r[i]);
    lemma_push_contains(s, x, x);
    lemma_push_contains(s, x, r[i]);
    assert forall|k: int| 0 <= k < r2.len() implies s2.contains(#[trigger] r2[k]) by {
        lemma_push_contains(s, x, r2[k]);
        if k != i {
            assert(r2[k] == r[k]);
        }
    }
    assert forall|a: int, b: int| 0 <= a < r2.len() && 0 <= b < r2.len() && a != b implies !alike(
        #[trigger] r2[a],
        #[trigger] r2[b],
    ) by {
        if a == i {
            assert(r2[b] == r[b]);
            lemma_single_match(s, r, x, i, b);
        } else if b == i {
            assert(r2[a] == r[a]);
            lemma_single_match(s, r, x, i, a);
            lemma_alike_symmetric(r[a], x);
        } else {
            assert(r2[a] == r[a] && r2[b] == r[b]);
        }
    }
    assert forall|y: CandidateView| #[trigger] s2.contains(y) && !wordless(y) implies represented(
        r2,
        y,
    ) by {
        lemma_push_contains(s, x, y);
        if s.contains(y) {
            let k = choose|k: int| 0 <= k < r.len() && alike(y, #[trigger] r[k]);
            if k == i {
                lemma_push_contains(s, x, y);
                assert(alike(y, r[i]) && alike(r[i], x));
                assert(alike(y, x));
                assert(r2[i] == x);
            } else {
                assert(r2[k] == r[k]);
            }
        } else {
            assert(r2[i] == x);
        }
    }
    assert forall|k: int, y: CandidateView|
        0 <= k < r2.len() && s2.contains(y) && #[trigger] alike(y, r2[k]) implies y.rank()
        <= r2[k].rank() by {
        lemma_push_contains(s, x, y);
        if k == i {
            assert(r2[k] == x);
            if y != x {
                assert(alike(y, x) && alike(x, r[i]));
                assert(alike(y, r[i]));
            }
        } else {
            assert(r2[k] == r[k]);
            if !s.contains(y) {
                lemma_single_match(s, r, x, i, k);
            }
        }
    }
    assert forall|v: CandidateView| wordless(v) implies #[trigger] r2.to_multiset().count(v)
        == s2.to_multiset().count(v) by {
        lemma_count_push(s, x, v);
        lemma_count_update(r, i, x, v);
    }
    assert forall|v: CandidateView| !wordless(v) implies #[trigger] r2.to_multiset().count(v)
        <= 1 by {
        lemma_count_update(r, i, x, v);
        if v == x {
            lemma_count_contains(r, x);
            if r.contains(x) {
                let k = choose|k: int| 0 <= k < r.len() && r[k] == x;
                if k != i {
                    lemma_single_match(s, r, x, i, k);
                }
            }
        }
    }
}

/// Where being alike carries over among the candidates, their
/// representatives are settled.
pub proof fn lemma_clustered_settled(s: Seq<CandidateView>)
    requires
        clusters_closed(s),
    ensures
        settled(s, clustered(s)),
    decreases s.len(),
{
    if s.len() == 0 {
        assert(clustered(s) == s);
        assert forall|v: CandidateView| #[trigger] s.to_multiset().count(v) == 0 by {
            lemma_count_contains(s, v);
        }
    } else {
        let before = s.drop_last();
        let x = s.last();
        assert(before.push(x) == s);
        lemma_clusters_closed_before(before, x);
        lemma_clustered_settled(before);
        let r = clustered(before);
        let i = lemma_absorb(r, x);
        if matches_none(r, x) {
            lemma_settled_push(before, r, x);
        } else if x.rank() > r[i].rank() {
            lemma_settled_replace(before, r, x, i);
        } else {
            lemma_settled_keep(before, r, x, i);
        }
    }
}

/// A candidate in front that no candidate like it outranks stays the first
/// representative.
pub proof fn lemma_leader_in_front_stays(s: Seq<CandidateView>)
    requires
        s.len() > 0,
        leads(s, s[0]),
    ensures
        clustered(s).len() > 0,
        clustered(s)[0] == s[0],
    decreases s.len(),
{
    let before = s.drop_last();
    let x = s.last();
    let r = clustered(before);
    if s.len() == 1 {
        assert(before == Seq::<CandidateView>::empty());
        assert(matches_none(r, x));
    } else {
        assert(before[0] == s[0]);
        assert(leads(before, before[0])) by {
            assert forall|y: CandidateView| before.contains(y) && #[trigger] alike(
                y,
                before[0],
            ) implies y.rank() <= before[0].rank() by {
                let m = choose|m: int| 0 <= m < before.len() && before[m] == y;
                assert(s[m] == y);
            }
        }
        lemma_leader_in_front_stays(before);
        let i = lemma_absorb(r, x);
        assert(s[s.len() - 1] == x);
        assert(s.contains(x));
    }
}

/// Where being alike carries over, a candidate that is like the first
/// representative and is another candidate is no representative.
pub proof fn lemma_rival_is_out(s: Seq<CandidateView>, x: CandidateView)
    requires
        clusters_closed(s),
        clustered(s).len() > 0,
        alike(x, clustered(s)[0]),
        x != clustered(s)[0],
    ensures
        !clustered(s).contains(x),
{
    lemma_clustered_settled(s);
    let r = clustered(s);
    if r.contains(x) {
        let k = choose|k: int| 0 <= k < r.len() && r[k] == x;
        assert(!alike(r[k], r[0]));
    }
}

/// A settled representative with words is also among the settled
/// representatives of the same candidates in another order.
pub proof fn lemma_survivor_shared(
    a: Seq<CandidateView>,
    b: Seq<CandidateView>,
    ra: Seq<CandidateView>,
    rb: Seq<CandidateView>,
    v: CandidateView,
)
    requires
        a.to_multiset() == b.to_multiset(),
        settled(a, ra),
        settled(b, rb),
        leaders_agree(b),
        ra.contains(v),
        !wordless(v),
    ensures
        rb.contains(v),
{
    assert forall|y: CandidateView| a.contains(y) == b.contains(y) by {
        lemma_count_contains(a, y);
        lemma_count_contains(b, y);
    }
    let k = choose|k: int| 0 <= k < ra.len() && ra[k] == v;
    assert(a.contains(ra[k]));
    assert(leads(b, v)) by {
        assert forall|y: CandidateView| b.contains(y) && #[trigger] alike(y, v) implies y.rank()
            <= v.rank() by {
            assert(a.contains(y));
            assert(alike(y, ra[k]));
        }
    }
    assert(b.contains(v));
    assert(represented(rb, v));
    let m = choose|m: int| 0 <= m < rb.len() && alike(v, #[trigger] rb[m]);
    assert(b.contains(rb[m]));
    assert(v.rank() <= rb[m].rank());
    lemma_alike_symmetric(v, rb[m]);
    assert(alike(rb[m], v));
    assert(rb[m].rank() <= v.rank());
    assert(v == rb[m]);
}

/// The order of the candidates does not matter to which candidates survive,
/// where being alike carries over among them and the best of each kind are
/// one candidate: the representatives of the same candidates in two orders
/// are the same candidates, each as often.
pub proof fn lemma_clustered_order_independent(a: Seq<CandidateView>, b: Seq<CandidateView>)
    requires
        a.to_multiset() == b.to_multiset(),
        clusters_closed(a),
        leaders_agree(a),
    ensures
        clustered(a).to_multiset() == clustered(b).to_multiset(),
{
    assert forall|y: CandidateView| a.contains(y) == b.contains(y) by {
        lemma_count_contains(a, y);
        lemma_count_contains(b, y);
    }
    assert(clusters_closed(b));
    assert forall|x: CandidateView| leads(a, x) == leads(b, x) by {
        if leads(a, x) {
            assert forall|y: CandidateView| b.contains(y) && #[trigger] alike(y, x) implies y.rank()
                <= x.rank() by {
                assert(a.contains(y));
            }
        }
        if leads(b, x) {
            assert forall|y: CandidateView| a.contains(y) && #[trigger] alike(y, x) implies y.rank()
                <= x.rank() by {
                assert(b.contains(y));
            }
        }
    }
    assert(leaders_agree(b));
    lemma_clustered_settled(a);
    lemma_clustered_settled(b);
    let ra = clustered(a);
    let rb = clustered(b);
    assert forall|v: CandidateView| ra.to_multiset().count(v) == rb.to_multiset().count(v) by {
        if !wordless(v) {
            lemma_count_contains(ra, v);
            lemma_count_contains(rb, v);
            if ra.contains(v) {
                lemma_survivor_shared(a, b, ra, rb, v);
            }
            if rb.contains(v) {
                lemma_survivor_shared(b, a, rb, ra, v);
            }
        }
    }
    assert(ra.to_multiset() =~= rb.to_multiset());
}

} // verus!
