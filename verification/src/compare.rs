//! How two lines are compared: each is normalised, cut into words, and the
//! two sets of words are measured against each other.

use crate::text::{
    join_words, joined, lemma_words_are_words, lemma_words_of_joined, push_char, same_chars,
    split_words, views, words,
};
use vstd::prelude::*;

verus! {

/// What `str::to_lowercase` makes of a text.
pub uninterp spec fn unicode_lowercase(s: Seq<char>) -> Seq<char>;

/// Whether `char::is_alphanumeric` holds of a character.
pub uninterp spec fn unicode_alphanumeric(c: char) -> bool;

/// `str::to_lowercase`: the lower-case form of `s` under Unicode's rules,
/// which depends on `s` alone.
#[verifier::external_body]
pub(crate) fn to_lowercase(s: &str) -> (r: String)
    ensures
        r@ == unicode_lowercase(s@),
{
    s.to_lowercase()
}

/// `char::is_alphanumeric`: whether `c` is a letter or a number under
/// Unicode's rules, which depends on `c` alone.
#[verifier::external_body]
pub(crate) fn is_alphanumeric(c: char) -> (r: bool)
    ensures
        r == unicode_alphanumeric(c),
{
    c.is_alphanumeric()
}

/// The characters that normalising keeps: letters, numbers and the space.
pub open spec fn is_word_char(c: char) -> bool {
    unicode_alphanumeric(c) || c == ' '
}

/// `s` without the characters that normalising drops.
pub open spec fn word_chars(s: Seq<char>) -> Seq<char> {
    s.filter(|c: char| is_word_char(c))
}

/// The words of `s` with a single space between neighbours and none at the
/// ends.
pub open spec fn collapsed(s: Seq<char>) -> Seq<char> {
    joined(words(s))
}

/// The form in which a line is compared: lower case, letters, numbers and
/// spaces only, white space collapsed.
pub open spec fn normalized(s: Seq<char>) -> Seq<char> {
    collapsed(word_chars(unicode_lowercase(s)))
}

/// The set of the words of `s`.
pub open spec fn word_set(s: Seq<char>) -> Set<Seq<char>> {
    words(s).to_set()
}

/// How many words `a` and `b` have in common.
pub open spec fn shared_words(a: Seq<char>, b: Seq<char>) -> nat {
    word_set(a).intersect(word_set(b)).len()
}

/// How many words occur in `a` or in `b`.
pub open spec fn all_words(a: Seq<char>, b: Seq<char>) -> nat {
    word_set(a).union(word_set(b)).len()
}

/// Whether `shared` out of `total` is at least seven tenths. Nothing out of
/// nothing is not.
pub open spec fn reaches_threshold(shared: nat, total: nat) -> bool {
    total > 0 && 10 * shared >= 7 * total
}

/// Whether two normalised texts count as the same line.
pub open spec fn similar(a: Seq<char>, b: Seq<char>) -> bool {
    reaches_threshold(shared_words(a, b), all_words(a, b))
}

/// Whether two line texts count as the same line.
pub open spec fn similar_texts(a: Seq<char>, b: Seq<char>) -> bool {
    similar(normalized(a), normalized(b))
}

/// The overlap of two sets of words: the size of their intersection over the
/// size of their union. With `total` zero the ratio counts as zero.
#[derive(Clone, Copy, Debug, PartialEq, Eq, Structural)]
pub struct Similarity {
    pub shared: usize,
    pub total: usize,
}

impl Similarity {
    /// Whether the ratio is at least seven tenths.
    pub open spec fn spec_is_duplicate(self) -> bool {
        reaches_threshold(self.shared as nat, self.total as nat)
    }

    /// Whether the ratio is at least seven tenths.
    #[verifier::when_used_as_spec(spec_is_duplicate)]
    pub fn is_duplicate(self) -> (r: bool)
        ensures
            r == self.spec_is_duplicate(),
    {
        self.total > 0 && (self.shared as u128) * 10 >= (self.total as u128) * 7
    }
}

/// `s` without the characters that normalising drops.
pub fn keep_word_chars(s: &str) -> (r: String)
    ensures
        r@ == word_chars(s@),
{
    let mut r = String::new();
    proof {
        reveal(Seq::filter);
        assert(s@.take(0) == Seq::<char>::empty());
    }
    for c in it: s.chars()
        invariant
            it.seq() == s@,
            r@ == word_chars(s@.take(it.index() as int)),
    {
        proof {
            let i = it.index() as int;
            assert(s@.take(i + 1) == s@.take(i).push(c));
            s@.take(i).lemma_filter_push(c, |c: char| is_word_char(c));
        }
        if c == ' ' || is_alphanumeric(c) {
            push_char(&mut r, c);
        }
    }
    assert(s@.take(s@.len() as int) == s@);
    r
}

/// The words of `s` with a single space between neighbours and none at the
/// ends.
pub fn collapse_whitespace(s: &str) -> (r: String)
    ensures
        r@ == collapsed(s@),
{
    let ws = split_words(s);
    join_words(&ws)
}

/// The comparison form of a text that is already in lower case.
pub fn normalize_lowered(lowered: &str) -> (r: String)
    ensures
        r@ == collapsed(word_chars(lowered@)),
{
    let kept = keep_word_chars(lowered);
    collapse_whitespace(kept.as_str())
}

/// The form in which a line is compared.
pub fn normalize_for_compare(s: &str) -> (r: String)
    ensures
        r@ == normalized(s@),
{
    let lowered = to_lowercase(s);
    normalize_lowered(lowered.as_str())
}

/// Whether `w` is one of `list`.
pub fn contains_word(list: &Vec<Vec<char>>, w: &Vec<char>) -> (r: bool)
    ensures
        r == views(list@).contains(w@),
{
    let mut i: usize = 0;
    while i < list.len()
        invariant
            i <= list.len(),
            forall|k: int| 0 <= k < i ==> views(list@)[k] != w@,
        decreases list.len() - i,
    {
        if same_chars(&list[i], w) {
            assert(views(list@)[i as int] == w@);
            return true;
        }
        i = i + 1;
    }
    false
}

/// The words of `s`, each once.
pub fn distinct_words(s: &str) -> (out: Vec<Vec<char>>)
    ensures
        views(out@).no_duplicates(),
        views(out@).to_set() == word_set(s@),
{
    let ws = split_words(s);
    let ghost all = views(ws@);
    let mut out: Vec<Vec<char>> = Vec::new();
    assert(views(out@).to_set() == all.take(0).to_set());
    for w in it: ws
        invariant
            it.seq() == ws@,
            all == views(ws@),
            views(out@).no_duplicates(),
            views(out@).to_set() == all.take(it.index() as int).to_set(),
    {
        proof {
            let i = it.index() as int;
            assert(all.take(i + 1) == all.take(i).push(w@));
            all.take(i).lemma_push_to_set_commute(w@);
        }
        if !contains_word(&out, &w) {
            proof {
                assert(views(out@.push(w)) == views(out@).push(w@));
                views(out@).lemma_push_to_set_commute(w@);
            }
            out.push(w);
        } else {
            assert(views(out@).to_set().insert(w@) == views(out@).to_set());
        }
    }
    assert(all.take(all.len() as int) == all);
    out
}

/// The overlap of the words of `a` and of `b`.
pub fn similarity(a: &str, b: &str) -> (r: Similarity)
    ensures
        r.shared == shared_words(a@, b@),
        r.total == all_words(a@, b@),
{
    let left = distinct_words(a);
    let right = distinct_words(b);
    let na = left.len();
    let nb = right.len();
    let ghost ls = views(left@);
    let ghost rs = views(right@);
    let mut all = left;
    assert(rs.take(0).to_set() == Set::<Seq<char>>::empty());
    assert(views(all@).to_set() == ls.to_set().union(rs.take(0).to_set()));
    for w in it: right
        invariant
            it.seq() == right@,
            rs == views(right@),
            views(all@).no_duplicates(),
            views(all@).to_set() == ls.to_set().union(rs.take(it.index() as int).to_set()),
    {
        proof {
            let i = it.index() as int;
            assert(rs.take(i + 1) == rs.take(i).push(w@));
            rs.take(i).lemma_push_to_set_commute(w@);
        }
        if !contains_word(&all, &w) {
            proof {
                assert(views(all@.push(w)) == views(all@).push(w@));
                views(all@).lemma_push_to_set_commute(w@);
                assert(views(all@).to_set().insert(w@) == ls.to_set().union(
                    rs.take(it.index() as int).to_set().insert(w@),
                ));
            }
            all.push(w);
        } else {
            assert(views(all@).to_set() == ls.to_set().union(
                rs.take(it.index() as int).to_set().insert(w@),
            ));
        }
    }
    let total = all.len();
    proof {
        assert(rs.take(rs.len() as int) == rs);
        ls.unique_seq_to_set();
        rs.unique_seq_to_set();
        views(all@).unique_seq_to_set();
        vstd::seq_lib::seq_to_set_is_finite(ls);
        vstd::seq_lib::seq_to_set_is_finite(rs);
        vstd::set_lib::lemma_set_intersect_union_lens(ls.to_set(), rs.to_set());
        vstd::set_lib::lemma_len_intersect(ls.to_set(), rs.to_set());
        vstd::seq_lib::seq_to_set_is_finite(views(all@));
        vstd::set_lib::lemma_len_subset(ls.to_set(), ls.to_set().union(rs.to_set()));
    }
    Similarity { shared: nb - (total - na), total }
}

/// Collapsing the white space of a text keeps its words, so that a collapsed
/// text collapses to itself.
pub proof fn lemma_collapsed_words(s: Seq<char>)
    ensures
        words(collapsed(s)) == words(s),
        collapsed(collapsed(s)) == collapsed(s),
{
    lemma_words_are_words(s);
    lemma_words_of_joined(words(s));
}

/// The words by which a line is compared are the words of its lower-case
/// form without the characters that are neither letter, number nor space.
pub proof fn lemma_normalized_words(s: Seq<char>)
    ensures
        words(normalized(s)) == words(word_chars(unicode_lowercase(s))),
        word_set(normalized(s)) == word_set(word_chars(unicode_lowercase(s))),
{
    lemma_collapsed_words(word_chars(unicode_lowercase(s)));
}

/// The overlap does not depend on which text comes first.
pub proof fn lemma_similarity_symmetric(a: Seq<char>, b: Seq<char>)
    ensures
        shared_words(a, b) == shared_words(b, a),
        all_words(a, b) == all_words(b, a),
        similar(a, b) == similar(b, a),
        similar_texts(a, b) == similar_texts(b, a),
{
    assert(word_set(a).intersect(word_set(b)) == word_set(b).intersect(word_set(a)));
    assert(word_set(a).union(word_set(b)) == word_set(b).union(word_set(a)));
    let na = normalized(a);
    let nb = normalized(b);
    assert(word_set(na).intersect(word_set(nb)) == word_set(nb).intersect(word_set(na)));
    assert(word_set(na).union(word_set(nb)) == word_set(nb).union(word_set(na)));
}

} // verus!
