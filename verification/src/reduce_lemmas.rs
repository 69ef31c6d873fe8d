//! What holds of reducing lines and documents: when reducing twice is
//! reducing once, and when the order of the lines, or of the readings, does
//! not matter.

use crate::cluster_lemmas::{
    clusters_closed, leaders_agree, lemma_clustered_fixed_point, lemma_clustered_len,
    lemma_clustered_members, lemma_clustered_order_independent, lemma_clustered_pair,
    lemma_clustered_settled, lemma_clustered_steady, lemma_count_contains,
    lemma_fixed_point_is_unlike, lemma_leader_in_front_stays, lemma_rival_is_out,
    pairwise_unlike, represented, wordless,
};
use crate::compare::similar_texts;
use crate::ocrys::types::{DocumentView, LineView, PageView};
use crate::reduce::{
    all_well_formed, candidate, candidates, clustered, lines_of, merged_lines, reduced,
    reduced_document, CandidateView,
};
use vstd::multiset::Multiset;
use vstd::prelude::*;

verus! {

/// Whether two lines count as the same line: whether the words of their
/// normalised texts overlap by seven tenths or more.
pub open spec fn alike_lines(a: LineView, b: LineView) -> bool {
    similar_texts(a.text, b.text)
}

/// No line is like a line before it.
pub open spec fn lines_apart(s: Seq<LineView>) -> bool {
    forall|i: int, j: int| 0 <= i < j < s.len() ==> !alike_lines(#[trigger] s[j], #[trigger] s[i])
}

/// No line ranks higher than a line before it.
pub open spec fn ranks_never_rise(s: Seq<LineView>) -> bool {
    forall|i: int, j: int|
        0 <= i < j < s.len() ==> (#[trigger] s[j]).rank() <= (#[trigger] s[i]).rank()
}

/// Among the lines of `s`, being alike carries over: a line like a second
/// that is like a third is like the third.
pub open spec fn kinds_closed(s: Seq<LineView>) -> bool {
    forall|x: LineView, y: LineView, z: LineView|
        s.contains(x) && s.contains(y) && s.contains(z) && #[trigger] alike_lines(x, y)
            && #[trigger] alike_lines(y, z) ==> alike_lines(x, z)
}

/// No line of `s` that is like `x` ranks higher than `x`.
pub open spec fn best_of_kind(s: Seq<LineView>, x: LineView) -> bool {
    forall|y: LineView| s.contains(y) && #[trigger] alike_lines(y, x) ==> y.rank() <= x.rank()
}

/// Two lines of `s` that are alike and both rank highest among their like
/// are the same line.
pub open spec fn best_agree(s: Seq<LineView>) -> bool {
    forall|x: LineView, y: LineView|
        s.contains(x) && s.contains(y) && #[trigger] alike_lines(x, y) && x.rank() == y.rank()
            && best_of_kind(s, x) ==> x == y
}

/// A candidate whose form is the normalised text of its line.
pub open spec fn proper(c: CandidateView) -> bool {
    c == candidate(c.line)
}

/// The candidates of lines are proper, and their lines are the lines.
pub proof fn lemma_candidates(s: Seq<LineView>)
    ensures
        lines_of(candidates(s)) == s,
        forall|k: int| 0 <= k < s.len() ==> proper(#[trigger] candidates(s)[k]),
        forall|c: CandidateView|
            candidates(s).contains(c) <==> proper(c) && s.contains(#[trigger] c.line),
{
    assert(lines_of(candidates(s)) == s);
    assert forall|c: CandidateView| candidates(s).contains(c) <==> proper(c) && s.contains(
        #[trigger] c.line,
    ) by {
        if candidates(s).contains(c) {
            let k = choose|k: int| 0 <= k < candidates(s).len() && candidates(s)[k] == c;
            assert(s[k] == c.line);
        }
        if proper(c) && s.contains(c.line) {
            let k = choose|k: int| 0 <= k < s.len() && s[k] == c.line;
            assert(candidates(s)[k] == c);
        }
    }
}

/// Proper candidates are the candidates of their lines.
pub proof fn lemma_proper_candidates(m: Seq<CandidateView>)
    requires
        forall|k: int| 0 <= k < m.len() ==> proper(#[trigger] m[k]),
    ensures
        candidates(lines_of(m)) == m,
{
    assert forall|k: int| 0 <= k < m.len() implies candidates(lines_of(m))[k] == m[k] by {
        assert(proper(m[k]));
    }
    assert(candidates(lines_of(m)) =~= m);
}

/// The representatives of lines are proper candidates of those lines.
pub proof fn lemma_reduced_candidates(s: Seq<LineView>)
    ensures
        forall|k: int|
            0 <= k < clustered(candidates(s)).len() ==> proper(
                #[trigger] clustered(candidates(s))[k],
            ) && s.contains(clustered(candidates(s))[k].line),
        candidates(reduced(s)) == clustered(candidates(s)),
{
    let m = clustered(candidates(s));
    lemma_clustered_members(candidates(s));
    lemma_candidates(s);
    assert forall|k: int| 0 <= k < m.len() implies proper(#[trigger] m[k]) && s.contains(
        m[k].line,
    ) by {
        assert(candidates(s).contains(m[k]));
    }
    lemma_proper_candidates(m);
}

/// Reducing never yields more lines than it was given, and every
/// representative is one of the lines.
pub proof fn lemma_reduced_members(s: Seq<LineView>)
    ensures
        reduced(s).len() <= s.len(),
        forall|k: int| 0 <= k < reduced(s).len() ==> s.contains(#[trigger] reduced(s)[k]),
{
    lemma_clustered_len(candidates(s));
    lemma_reduced_candidates(s);
    assert forall|k: int| 0 <= k < reduced(s).len() implies s.contains(
        #[trigger] reduced(s)[k],
    ) by {
        assert(reduced(s)[k] == clustered(candidates(s))[k].line);
    }
}

/// Two lines become one exactly when they are alike, and then the second
/// stays only if it ranks strictly higher.
pub proof fn lemma_reduced_pair(a: LineView, b: LineView)
    ensures
        reduced(seq![a, b]) == if !alike_lines(b, a) {
            seq![a, b]
        } else if b.rank() > a.rank() {
            seq![b]
        } else {
            seq![a]
        },
{
    lemma_clustered_pair(candidate(a), candidate(b));
    assert(candidates(seq![a, b]) == seq![candidate(a), candidate(b)]);
    assert(lines_of(seq![candidate(a), candidate(b)]) == seq![a, b]);
    assert(lines_of(seq![candidate(a)]) == seq![a]);
    assert(lines_of(seq![candidate(b)]) == seq![b]);
}

/// Lines are apart exactly when their candidates are.
pub proof fn lemma_lines_apart(s: Seq<LineView>)
    ensures
        lines_apart(s) <==> pairwise_unlike(candidates(s)),
{
    let c = candidates(s);
    if lines_apart(s) {
        assert forall|i: int, j: int| 0 <= i < j < c.len() implies !crate::reduce::alike(
            #[trigger] c[j],
            #[trigger] c[i],
        ) by {
            assert(!alike_lines(s[j], s[i]));
        }
    }
    if pairwise_unlike(c) {
        assert forall|i: int, j: int| 0 <= i < j < s.len() implies !alike_lines(
            #[trigger] s[j],
            #[trigger] s[i],
        ) by {
            assert(!crate::reduce::alike(c[j], c[i]));
        }
    }
}

/// Lines of which none is like an earlier one are their own
/// representatives.
pub proof fn lemma_reduced_fixed_point(s: Seq<LineView>)
    requires
        lines_apart(s),
    ensures
        reduced(s) == s,
{
    lemma_lines_apart(s);
    lemma_clustered_fixed_point(candidates(s));
    lemma_candidates(s);
}

/// Reducing what was reduced changes nothing exactly when no representative
/// is like an earlier one.
pub proof fn lemma_reduced_twice(s: Seq<LineView>)
    ensures
        reduced(reduced(s)) == reduced(s) <==> lines_apart(reduced(s)),
{
    let r = reduced(s);
    let m = clustered(candidates(s));
    lemma_reduced_candidates(s);
    lemma_lines_apart(r);
    if lines_apart(r) {
        lemma_reduced_fixed_point(r);
    }
    if reduced(r) == r {
        lemma_reduced_candidates(r);
        assert(clustered(m) == candidates(reduced(r)));
        lemma_fixed_point_is_unlike(m);
    }
}

/// Where no line ranks higher than a line before it, as where no line has a
/// score, reducing what was reduced changes nothing.
pub proof fn lemma_reduced_idempotent(s: Seq<LineView>)
    requires
        ranks_never_rise(s),
    ensures
        lines_apart(reduced(s)),
        reduced(reduced(s)) == reduced(s),
{
    let c = candidates(s);
    assert(crate::cluster_lemmas::ranks_steady(c)) by {
        assert forall|i: int, j: int| 0 <= i < j < c.len() implies (#[trigger] c[j]).rank() <= (
        #[trigger] c[i]).rank() by {
            assert(s[j].rank() <= s[i].rank());
        }
    }
    lemma_clustered_steady(c);
    crate::cluster_lemmas::lemma_steady_ranks_keep_apart(c);
    lemma_reduced_candidates(s);
    lemma_lines_apart(reduced(s));
    lemma_reduced_twice(s);
}

/// Reducing a reduced document by itself changes nothing, where on no page
/// a line of the readings ranks higher than a line before it, as where no
/// line has a score.
pub proof fn lemma_reduced_document_idempotent(docs: Seq<DocumentView>)
    requires
        docs.len() > 0,
        forall|p: int|
            0 <= p < docs[0].pages.len() ==> ranks_never_rise(#[trigger] merged_lines(docs, p)),
    ensures
        reduced_document(seq![reduced_document(docs)]) == reduced_document(docs),
{
    let once = reduced_document(docs);
    let twice = reduced_document(seq![once]);
    assert forall|p: int| 0 <= p < once.pages.len() implies twice.pages[p] == once.pages[p] by {
        let alone = seq![once].map_values(|d: DocumentView| d.lines_of_page(p));
        assert(alone == seq![once.pages[p].lines]);
        alone.lemma_flatten_one_element();
        assert(merged_lines(seq![once], p) == reduced(merged_lines(docs, p)));
        lemma_reduced_idempotent(merged_lines(docs, p));
    }
    assert(twice.pages =~= once.pages);
}

/// Adds the image of a value to a pool.
pub open spec fn image_step<A, B>(f: spec_fn(A) -> B) -> spec_fn(Multiset<B>, A) -> Multiset<B> {
    |m: Multiset<B>, x: A| m.insert(f(x))
}

/// The images of a sequence, pooled without order.
pub proof fn lemma_images_pooled<A, B>(s: Seq<A>, f: spec_fn(A) -> B)
    ensures
        s.map_values(f).to_multiset() == s.fold_left(Multiset::empty(), image_step(f)),
    decreases s.len(),
{
    if s.len() == 0 {
        assert forall|v: B| s.map_values(f).to_multiset().count(v) == 0 by {
            lemma_count_contains(s.map_values(f), v);
        }
        assert(s.map_values(f).to_multiset() =~= Multiset::<B>::empty());
    } else {
        lemma_images_pooled(s.drop_last(), f);
        assert(s.map_values(f) == s.drop_last().map_values(f).push(f(s.last())));
        vstd::seq_lib::to_multiset_build(s.drop_last().map_values(f), f(s.last()));
    }
}

/// The same values, each as often, have the same images, each as often.
pub proof fn lemma_images_keep_counts<A, B>(a: Seq<A>, b: Seq<A>, f: spec_fn(A) -> B)
    requires
        a.to_multiset() == b.to_multiset(),
    ensures
        a.map_values(f).to_multiset() == b.map_values(f).to_multiset(),
{
    let g = image_step(f);
    assert(vstd::seq_lib::commutative_foldl(g)) by {
        assert forall|x: A, y: A, v: Multiset<B>| #[trigger] g(g(v, x), y) == g(g(v, y), x) by {
            broadcast use vstd::multiset::group_multiset_axioms;

            assert(g(g(v, x), y) =~= g(g(v, y), x));
        }
    }
    vstd::seq_lib::lemma_fold_left_permutation(a, b, g, Multiset::<B>::empty());
    lemma_images_pooled(a, f);
    lemma_images_pooled(b, f);
}

/// Where being alike carries over among lines, it does among their
/// candidates.
pub proof fn lemma_kinds_closed(s: Seq<LineView>)
    requires
        kinds_closed(s),
    ensures
        clusters_closed(candidates(s)),
{
    let c = candidates(s);
    lemma_candidates(s);
    assert forall|x: CandidateView, y: CandidateView, z: CandidateView|
        c.contains(x) && c.contains(y) && c.contains(z) && #[trigger] crate::reduce::alike(x, y)
            && #[trigger] crate::reduce::alike(y, z) implies crate::reduce::alike(x, z) by {
        assert(s.contains(x.line) && s.contains(y.line) && s.contains(z.line));
        assert(alike_lines(x.line, y.line) && alike_lines(y.line, z.line));
    }
}

/// Whether the comparison form of a line has a word. A line without one is
/// like no line, and is always kept.
pub open spec fn has_words(line: LineView) -> bool {
    !wordless(candidate(line))
}

/// Every line with words is kept or stood for: where being alike carries
/// over among the lines, each of them that has a word is like one of the
/// representatives, and ranks no higher than it.
pub proof fn lemma_every_line_is_represented(s: Seq<LineView>)
    requires
        kinds_closed(s),
    ensures
        forall|i: int|
            0 <= i < s.len() && has_words(#[trigger] s[i]) ==> exists|k: int|
                0 <= k < reduced(s).len() && alike_lines(s[i], #[trigger] reduced(s)[k])
                    && s[i].rank() <= reduced(s)[k].rank(),
{
    let c = candidates(s);
    let m = clustered(c);
    lemma_kinds_closed(s);
    lemma_clustered_settled(c);
    lemma_reduced_candidates(s);
    assert forall|i: int| 0 <= i < s.len() && has_words(#[trigger] s[i]) implies exists|k: int|
        0 <= k < reduced(s).len() && alike_lines(s[i], #[trigger] reduced(s)[k]) && s[i].rank()
            <= reduced(s)[k].rank() by {
        let y = c[i];
        assert(y == candidate(s[i]));
        assert(c.contains(y));
        assert(represented(m, y));
        let k = choose|k: int| 0 <= k < m.len() && crate::reduce::alike(y, #[trigger] m[k]);
        assert(proper(m[k]));
        assert(reduced(s)[k] == m[k].line);
        assert(y.rank() <= m[k].rank());
    }
}

/// What holds of lines as to being alike holds of their candidates.
pub proof fn lemma_kinds(s: Seq<LineView>)
    requires
        kinds_closed(s),
        best_agree(s),
    ensures
        clusters_closed(candidates(s)),
        leaders_agree(candidates(s)),
{
    let c = candidates(s);
    lemma_candidates(s);
    lemma_kinds_closed(s);
    assert forall|x: CandidateView, y: CandidateView|
        c.contains(x) && c.contains(y) && #[trigger] crate::reduce::alike(x, y) && x.line.rank()
            == y.line.rank() && crate::cluster_lemmas::leads(c, x) implies x == y by {
        assert(s.contains(x.line) && s.contains(y.line));
        assert(alike_lines(x.line, y.line));
        assert(best_of_kind(s, x.line)) by {
            assert forall|l: LineView| s.contains(l) && #[trigger] alike_lines(
                l,
                x.line,
            ) implies l.rank() <= x.line.rank() by {
                assert(c.contains(candidate(l)));
                assert(crate::reduce::alike(candidate(l), x));
            }
        }
        assert(x.line == y.line);
    }
}

/// A line moved to the front: the same lines, each as often.
pub proof fn lemma_moved_to_front<A>(a: Seq<A>, i: int)
    requires
        0 <= i < a.len(),
    ensures
        a.remove(i).insert(0, a[i]).to_multiset() == a.to_multiset(),
        a.remove(i).insert(0, a[i])[0] == a[i],
        a.remove(i).insert(0, a[i]).len() == a.len(),
{
    broadcast use vstd::multiset::group_multiset_axioms;

    vstd::seq_lib::to_multiset_remove(a, i);
    vstd::seq_lib::to_multiset_insert(a.remove(i), 0, a[i]);
    lemma_count_contains(a, a[i]);
    assert(a.contains(a[i]));
    assert(a.to_multiset().remove(a[i]).insert(a[i]) =~= a.to_multiset());
}

/// The order of the lines matters where the best of a kind are not one line.
/// Where being alike carries over among the lines, and two different lines
/// that are alike both rank highest among their like, the lines have two
/// orders in which different lines survive: the first of the two results has
/// the one line in front, the second the other.
pub proof fn lemma_order_decides_between_equals(a: Seq<LineView>) -> (r: (
    Seq<LineView>,
    Seq<LineView>,
))
    requires
        kinds_closed(a),
        !best_agree(a),
    ensures
        r.0.to_multiset() == a.to_multiset(),
        r.1.to_multiset() == a.to_multiset(),
        reduced(r.0).to_multiset() != reduced(r.1).to_multiset(),
{
    let (x, y) = choose|x: LineView, y: LineView|
        a.contains(x) && a.contains(y) && #[trigger] alike_lines(x, y) && x.rank() == y.rank()
            && best_of_kind(a, x) && x != y;
    let i = choose|i: int| 0 <= i < a.len() && a[i] == x;
    let j = choose|j: int| 0 <= j < a.len() && a[j] == y;
    let b = a.remove(i).insert(0, x);
    let c = a.remove(j).insert(0, y);
    lemma_moved_to_front(a, i);
    lemma_moved_to_front(a, j);
    assert forall|l: LineView| a.contains(l) == b.contains(l) && a.contains(l) == c.contains(
        l,
    ) by {
        lemma_count_contains(a, l);
        lemma_count_contains(b, l);
        lemma_count_contains(c, l);
    }
    assert(kinds_closed(b));
    assert(kinds_closed(c));
    crate::compare::lemma_similarity_symmetric(x.text, y.text);
    assert(alike_lines(y, x));
    let cb = candidates(b);
    let cc = candidates(c);
    lemma_candidates(b);
    lemma_candidates(c);
    assert(crate::cluster_lemmas::leads(cb, cb[0])) by {
        assert forall|v: CandidateView| cb.contains(v) && #[trigger] crate::reduce::alike(
            v,
            cb[0],
        ) implies v.rank() <= cb[0].rank() by {
            assert(a.contains(v.line));
            assert(alike_lines(v.line, x));
        }
    }
    assert(crate::cluster_lemmas::leads(cc, cc[0])) by {
        assert forall|v: CandidateView| cc.contains(v) && #[trigger] crate::reduce::alike(
            v,
            cc[0],
        ) implies v.rank() <= cc[0].rank() by {
            assert(a.contains(v.line));
            assert(alike_lines(v.line, y) && alike_lines(y, x));
            assert(alike_lines(v.line, x));
        }
    }
    lemma_leader_in_front_stays(cb);
    lemma_leader_in_front_stays(cc);
    lemma_kinds_closed(c);
    lemma_rival_is_out(cc, candidate(x));
    lemma_reduced_candidates(b);
    lemma_reduced_candidates(c);
    assert(reduced(b)[0] == x);
    assert(reduced(b).contains(x));
    assert(!reduced(c).contains(x)) by {
        if reduced(c).contains(x) {
            let k = choose|k: int| 0 <= k < reduced(c).len() && reduced(c)[k] == x;
            assert(proper(clustered(cc)[k]));
            assert(clustered(cc)[k] == candidate(x));
        }
    }
    lemma_count_contains(reduced(b), x);
    lemma_count_contains(reduced(c), x);
    (b, c)
}

/// The order of the lines does not matter to which lines survive, where
/// being alike carries over among them and the best of each kind are one
/// line: the representatives of the same lines in two orders are the same
/// lines, each as often.
pub proof fn lemma_reduced_order_independent(a: Seq<LineView>, b: Seq<LineView>)
    requires
        a.to_multiset() == b.to_multiset(),
        kinds_closed(a),
        best_agree(a),
    ensures
        reduced(a).to_multiset() == reduced(b).to_multiset(),
{
    lemma_kinds(a);
    lemma_images_keep_counts(a, b, |l: LineView| candidate(l));
    assert(candidates(a) == a.map_values(|l: LineView| candidate(l)));
    assert(candidates(b) == b.map_values(|l: LineView| candidate(l)));
    lemma_clustered_order_independent(candidates(a), candidates(b));
    let ma = clustered(candidates(a));
    let mb = clustered(candidates(b));
    lemma_images_keep_counts(ma, mb, |c: CandidateView| c.line);
    assert(lines_of(ma) == ma.map_values(|c: CandidateView| c.line));
    assert(lines_of(mb) == mb.map_values(|c: CandidateView| c.line));
}

/// Every line that readings hold together on a page is a line of one of
/// them on that page.
pub proof fn lemma_merged_members(docs: Seq<DocumentView>, p: int, x: LineView)
    requires
        merged_lines(docs, p).contains(x),
    ensures
        exists|i: int| 0 <= i < docs.len() && (#[trigger] docs[i]).lines_of_page(p).contains(x),
    decreases docs.len(),
{
    let per = docs.map_values(|d: DocumentView| d.lines_of_page(p));
    if docs.len() > 0 {
        let before = docs.drop_last();
        let per_before = before.map_values(|d: DocumentView| d.lines_of_page(p));
        assert(per == per_before.push(docs.last().lines_of_page(p)));
        per_before.lemma_flatten_push(docs.last().lines_of_page(p));
        let all = merged_lines(docs, p);
        let k = choose|k: int| 0 <= k < all.len() && all[k] == x;
        if k < merged_lines(before, p).len() {
            assert(merged_lines(before, p)[k] == x);
            lemma_merged_members(before, p, x);
            let i = choose|i: int|
                0 <= i < before.len() && (#[trigger] before[i]).lines_of_page(p).contains(x);
            assert(docs[i] == before[i]);
        } else {
            let last = docs.last().lines_of_page(p);
            assert(last[k - merged_lines(before, p).len()] == x);
            assert(docs[docs.len() - 1].lines_of_page(p).contains(x));
        }
    } else {
        assert(merged_lines(docs, p) == Seq::<LineView>::empty());
    }
}

/// Reducing keeps documents well formed: where every line of every reading
/// is well formed and the first reading's page numbers are positive, so is
/// the reduced document.
pub proof fn lemma_reduced_document_well_formed(docs: Seq<DocumentView>)
    requires
        docs.len() > 0,
        all_well_formed(docs),
    ensures
        reduced_document(docs).well_formed(),
{
    let out = reduced_document(docs);
    assert forall|p: int| 0 <= p < out.pages.len() implies (
    #[trigger] out.pages[p]).well_formed() by {
        assert(docs[0].well_formed());
        assert(docs[0].pages[p].well_formed());
        let lines = out.pages[p].lines;
        lemma_reduced_members(merged_lines(docs, p));
        assert forall|k: int| 0 <= k < lines.len() implies (#[trigger] lines[k]).well_formed() by {
            lemma_merged_members(docs, p, lines[k]);
            let i = choose|i: int|
                0 <= i < docs.len() && (#[trigger] docs[i]).lines_of_page(p).contains(lines[k]);
            assert(docs[i].well_formed());
            let from = docs[i].lines_of_page(p);
            let m = choose|m: int| 0 <= m < from.len() && from[m] == lines[k];
            assert(docs[i].pages[p].well_formed());
            assert(docs[i].pages[p].lines[m].well_formed());
        }
    }
}

/// Adds the lines that a document holds on page `p` to a pool of lines.
pub open spec fn pool_step(p: int) -> spec_fn(Multiset<LineView>, DocumentView) -> Multiset<
    LineView,
> {
    |m: Multiset<LineView>, d: DocumentView| m.add(d.lines_of_page(p).to_multiset())
}

/// The lines that the documents hold on page `p`, pooled without order.
pub open spec fn pooled(docs: Seq<DocumentView>, p: int) -> Multiset<LineView> {
    docs.fold_left(Multiset::empty(), pool_step(p))
}

/// The merged lines of a page are the pooled lines, in some order.
pub proof fn lemma_merged_is_pooled(docs: Seq<DocumentView>, p: int)
    ensures
        merged_lines(docs, p).to_multiset() == pooled(docs, p),
    decreases docs.len(),
{
    let per = docs.map_values(|d: DocumentView| d.lines_of_page(p));
    if docs.len() == 0 {
        assert(merged_lines(docs, p) == Seq::<LineView>::empty());
        assert forall|v: LineView| merged_lines(docs, p).to_multiset().count(v) == 0 by {
            lemma_count_contains(merged_lines(docs, p), v);
        }
        assert(merged_lines(docs, p).to_multiset() =~= Multiset::<LineView>::empty());
    } else {
        let before = docs.drop_last();
        let last = docs.last();
        lemma_merged_is_pooled(before, p);
        let per_before = before.map_values(|d: DocumentView| d.lines_of_page(p));
        assert(per == per_before.push(last.lines_of_page(p)));
        per_before.lemma_flatten_push(last.lines_of_page(p));
        vstd::seq_lib::lemma_multiset_commutative(
            merged_lines(before, p),
            last.lines_of_page(p),
        );
    }
}

/// The lines that readings hold on a page are the same lines, each as often,
/// in whatever order the readings come.
pub proof fn lemma_merged_lines_permute(a: Seq<DocumentView>, b: Seq<DocumentView>, p: int)
    requires
        a.to_multiset() == b.to_multiset(),
    ensures
        merged_lines(a, p).to_multiset() == merged_lines(b, p).to_multiset(),
{
    let f = pool_step(p);
    assert(vstd::seq_lib::commutative_foldl(f)) by {
        assert forall|x: DocumentView, y: DocumentView, v: Multiset<LineView>| #[trigger]
            f(f(v, x), y) == f(f(v, y), x) by {
            broadcast use vstd::multiset::group_multiset_axioms;

            assert(f(f(v, x), y) =~= f(f(v, y), x));
        }
    }
    vstd::seq_lib::lemma_fold_left_permutation(a, b, f, Multiset::<LineView>::empty());
    lemma_merged_is_pooled(a, p);
    lemma_merged_is_pooled(b, p);
}

/// The order of the readings does not matter to which lines survive on a
/// page, where being alike carries over among the page's lines and the best
/// of each kind are one line.
pub proof fn lemma_page_survivors_order_independent(
    a: Seq<DocumentView>,
    b: Seq<DocumentView>,
    p: int,
)
    requires
        a.to_multiset() == b.to_multiset(),
        kinds_closed(merged_lines(a, p)),
        best_agree(merged_lines(a, p)),
    ensures
        reduced(merged_lines(a, p)).to_multiset() == reduced(merged_lines(b, p)).to_multiset(),
{
    lemma_merged_lines_permute(a, b, p);
    lemma_reduced_order_independent(merged_lines(a, p), merged_lines(b, p));
}

/// Reordering the readings of a document changes whose source and page
/// numbers the result has, the first reading's in either order, and keeps,
/// page by page, the lines that survive: where the first reading has as many
/// pages in one order as in the other, being alike carries over among each
/// page's lines, and the best of each kind are one line.
pub proof fn lemma_reading_order(a: Seq<DocumentView>, b: Seq<DocumentView>)
    requires
        a.len() > 0,
        a.to_multiset() == b.to_multiset(),
        b.len() > 0 ==> a[0].pages.len() == b[0].pages.len(),
        forall|p: int|
            0 <= p < a[0].pages.len() ==> kinds_closed(#[trigger] merged_lines(a, p))
                && best_agree(merged_lines(a, p)),
    ensures
        b.len() > 0,
        reduced_document(a).source == a[0].source,
        reduced_document(b).source == b[0].source,
        reduced_document(a).pages.len() == reduced_document(b).pages.len(),
        forall|p: int|
            0 <= p < reduced_document(a).pages.len() ==> (#[trigger] reduced_document(
                a,
            ).pages[p]).lines.to_multiset() == reduced_document(b).pages[p].lines.to_multiset(),
{
    vstd::seq_lib::to_multiset_len(a);
    vstd::seq_lib::to_multiset_len(b);
    assert forall|p: int| 0 <= p < reduced_document(a).pages.len() implies (
    #[trigger] reduced_document(a).pages[p]).lines.to_multiset() == reduced_document(
        b,
    ).pages[p].lines.to_multiset() by {
        assert(kinds_closed(merged_lines(a, p)));
        lemma_page_survivors_order_independent(a, b, p);
    }
}

/// Pages that hold the same lines one by one, each as often, hold the same
/// lines together.
pub proof fn lemma_pagewise_same_lines(x: Seq<PageView>, y: Seq<PageView>)
    requires
        x.len() == y.len(),
        forall|p: int|
            0 <= p < x.len() ==> (#[trigger] x[p]).lines.to_multiset() == y[p].lines.to_multiset(),
    ensures
        x.map_values(|p: PageView| p.lines).flatten().to_multiset() == y.map_values(
            |p: PageView| p.lines,
        ).flatten().to_multiset(),
    decreases x.len(),
{
    let xs = x.map_values(|p: PageView| p.lines);
    let ys = y.map_values(|p: PageView| p.lines);
    if x.len() == 0 {
        assert(xs == ys);
    } else {
        let xb = x.drop_last();
        let yb = y.drop_last();
        assert forall|p: int| 0 <= p < xb.len() implies (#[trigger] xb[p]).lines.to_multiset()
            == yb[p].lines.to_multiset() by {
            assert(xb[p] == x[p] && yb[p] == y[p]);
        }
        lemma_pagewise_same_lines(xb, yb);
        let xbs = xb.map_values(|p: PageView| p.lines);
        let ybs = yb.map_values(|p: PageView| p.lines);
        assert(xs == xbs.push(x.last().lines));
        assert(ys == ybs.push(y.last().lines));
        xbs.lemma_flatten_push(x.last().lines);
        ybs.lemma_flatten_push(y.last().lines);
        vstd::seq_lib::lemma_multiset_commutative(xbs.flatten(), x.last().lines);
        vstd::seq_lib::lemma_multiset_commutative(ybs.flatten(), y.last().lines);
        assert(x[x.len() - 1].lines.to_multiset() == y[x.len() - 1].lines.to_multiset());
    }
}

/// Reordering the readings of a document keeps the lines that survive in
/// it, each as often, under the conditions of `lemma_reading_order`.
pub proof fn lemma_survivors_order_independent(a: Seq<DocumentView>, b: Seq<DocumentView>)
    requires
        a.len() > 0,
        a.to_multiset() == b.to_multiset(),
        b.len() > 0 ==> a[0].pages.len() == b[0].pages.len(),
        forall|p: int|
            0 <= p < a[0].pages.len() ==> kinds_closed(#[trigger] merged_lines(a, p))
                && best_agree(merged_lines(a, p)),
    ensures
        b.len() > 0,
        reduced_document(a).all_lines().to_multiset() == reduced_document(
            b,
        ).all_lines().to_multiset(),
{
    lemma_reading_order(a, b);
    lemma_pagewise_same_lines(reduced_document(a).pages, reduced_document(b).pages);
}

} // verus!
