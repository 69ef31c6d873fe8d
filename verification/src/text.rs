//! Text as sequences of characters: white space, trimming, lines and words.
//!
//! Every function here works on `char`s, never on bytes, so a length is a
//! number of characters.

use vstd::prelude::*;

verus! {

/// The code points that Unicode marks as `White_Space`.
pub open spec fn is_whitespace(c: char) -> bool {
    let n = c as u32;
    ||| 0x09 <= n <= 0x0d
    ||| n == 0x20
    ||| n == 0x85
    ||| n == 0xa0
    ||| n == 0x1680
    ||| 0x2000 <= n <= 0x200a
    ||| n == 0x2028
    ||| n == 0x2029
    ||| n == 0x202f
    ||| n == 0x205f
    ||| n == 0x3000
}

/// `s` without the white space at its start.
pub open spec fn trim_start(s: Seq<char>) -> Seq<char>
    decreases s.len(),
{
    if s.len() > 0 && is_whitespace(s[0]) {
        trim_start(s.skip(1))
    } else {
        s
    }
}

/// `s` without the white space at its end.
pub open spec fn trim_end(s: Seq<char>) -> Seq<char>
    decreases s.len(),
{
    if s.len() > 0 && is_whitespace(s.last()) {
        trim_end(s.drop_last())
    } else {
        s
    }
}

/// `s` without the white space at either end.
pub open spec fn trimmed(s: Seq<char>) -> Seq<char> {
    trim_end(trim_start(s))
}

/// The pieces of `s` between line feeds. There is always at least one piece,
/// and a piece holds no line feed.
pub open spec fn line_pieces(s: Seq<char>) -> Seq<Seq<char>>
    decreases s.len(),
{
    if s.len() == 0 {
        seq![Seq::<char>::empty()]
    } else {
        let before = line_pieces(s.drop_last());
        if s.last() == '\n' {
            before.push(Seq::<char>::empty())
        } else {
            before.drop_last().push(before.last().push(s.last()))
        }
    }
}

/// The lines of `s`: its pieces between line feeds, where a line feed at the
/// very end closes the last line and opens no new one.
pub open spec fn text_lines(s: Seq<char>) -> Seq<Seq<char>> {
    let pieces = line_pieces(s);
    if pieces.last().len() == 0 {
        pieces.drop_last()
    } else {
        pieces
    }
}

/// The words of `s`: its maximal runs of characters that are not white space,
/// from left to right.
pub open spec fn words(s: Seq<char>) -> Seq<Seq<char>>
    decreases s.len(),
{
    if s.len() == 0 {
        Seq::<Seq<char>>::empty()
    } else {
        let before = words(s.drop_last());
        if is_whitespace(s.last()) {
            before
        } else if s.len() >= 2 && !is_whitespace(s[s.len() - 2]) {
            before.drop_last().push(before.last().push(s.last()))
        } else {
            before.push(seq![s.last()])
        }
    }
}

/// The texts in their order, with one space between neighbours and none at
/// the ends.
pub open spec fn joined(words: Seq<Seq<char>>) -> Seq<char>
    decreases words.len(),
{
    if words.len() == 0 {
        Seq::<char>::empty()
    } else if words.len() == 1 {
        words[0]
    } else {
        joined(words.drop_last()) + seq![' '] + words.last()
    }
}

/// The text with a line feed after each piece but the last.
pub open spec fn joined_by_line_feeds(pieces: Seq<Seq<char>>) -> Seq<char>
    decreases pieces.len(),
{
    if pieces.len() == 0 {
        Seq::<char>::empty()
    } else if pieces.len() == 1 {
        pieces[0]
    } else {
        joined_by_line_feeds(pieces.drop_last()) + seq!['\n'] + pieces.last()
    }
}

/// The digits of `n` in base ten, most significant first.
pub open spec fn decimal(n: nat) -> Seq<char>
    decreases n,
{
    if n < 10 {
        seq![digit(n)]
    } else {
        decimal(n / 10).push(digit(n % 10))
    }
}

/// The character for a single digit.
pub open spec fn digit(d: nat) -> char {
    if d == 0 {
        '0'
    } else if d == 1 {
        '1'
    } else if d == 2 {
        '2'
    } else if d == 3 {
        '3'
    } else if d == 4 {
        '4'
    } else if d == 5 {
        '5'
    } else if d == 6 {
        '6'
    } else if d == 7 {
        '7'
    } else if d == 8 {
        '8'
    } else {
        '9'
    }
}

/// The views of a list of character buffers.
pub open spec fn views(v: Seq<Vec<char>>) -> Seq<Seq<char>> {
    v.map_values(|t: Vec<char>| t@)
}

/// The views of a list of strings.
pub open spec fn string_views(v: Seq<String>) -> Seq<Seq<char>> {
    v.map_values(|t: String| t@)
}

/// What is left of `s` after its leading white space is its end, and does
/// not start with white space.
pub proof fn lemma_trim_start(s: Seq<char>)
    ensures
        trim_start(s).len() <= s.len(),
        trim_start(s) == s.skip(s.len() - trim_start(s).len()),
        trim_start(s).len() > 0 ==> !is_whitespace(trim_start(s)[0]),
    decreases s.len(),
{
    if s.len() > 0 && is_whitespace(s[0]) {
        lemma_trim_start(s.skip(1));
        let t = trim_start(s.skip(1));
        assert(s.skip(1).skip(s.skip(1).len() - t.len()) == s.skip(s.len() - t.len()));
    } else {
        assert(s.skip(0) == s);
    }
}

/// What is left of `s` after its trailing white space is its start, and
/// does not end with white space.
pub proof fn lemma_trim_end(s: Seq<char>)
    ensures
        trim_end(s).len() <= s.len(),
        trim_end(s) == s.take(trim_end(s).len() as int),
        trim_end(s).len() > 0 ==> !is_whitespace(trim_end(s).last()),
    decreases s.len(),
{
    if s.len() > 0 && is_whitespace(s.last()) {
        lemma_trim_end(s.drop_last());
        let t = trim_end(s.drop_last());
        assert(s.drop_last().take(t.len() as int) == s.take(t.len() as int));
    } else {
        assert(s.take(s.len() as int) == s);
    }
}

/// A trimmed text has white space at neither end, so trimming it again
/// changes nothing.
pub proof fn lemma_trimmed_is_trimmed(s: Seq<char>)
    ensures
        trimmed(trimmed(s)) == trimmed(s),
        trimmed(s).len() > 0 ==> !is_whitespace(trimmed(s)[0]) && !is_whitespace(
            trimmed(s).last(),
        ),
{
    let u = trim_start(s);
    let t = trim_end(u);
    lemma_trim_start(s);
    lemma_trim_end(u);
    if t.len() > 0 {
        assert(t[0] == u[0]);
    }
}

/// What the pieces of a text are: there is at least one, none holds a line
/// feed, and with a line feed between neighbours they are the text.
pub proof fn lemma_line_pieces(s: Seq<char>)
    ensures
        line_pieces(s).len() >= 1,
        forall|k: int, i: int|
            0 <= k < line_pieces(s).len() && 0 <= i < line_pieces(s)[k].len() ==> (
            #[trigger] line_pieces(s)[k][i]) != '\n',
        joined_by_line_feeds(line_pieces(s)) == s,
    decreases s.len(),
{
    if s.len() > 0 {
        let before = line_pieces(s.drop_last());
        let now = line_pieces(s);
        lemma_line_pieces(s.drop_last());
        if s.last() == '\n' {
            assert(now.drop_last() == before);
            assert forall|k: int, i: int| 0 <= k < now.len() && 0 <= i < now[k].len() implies (
            #[trigger] now[k][i]) != '\n' by {
                assert(now[k] == before[k]);
            }
            assert(joined_by_line_feeds(now) == joined_by_line_feeds(before) + seq!['\n']
                + Seq::<char>::empty());
            assert(s.drop_last().push('\n') == s);
        } else {
            let grown = before.last().push(s.last());
            assert(now.drop_last() == before.drop_last());
            assert forall|k: int, i: int| 0 <= k < now.len() && 0 <= i < now[k].len() implies (
            #[trigger] now[k][i]) != '\n' by {
                if k < before.len() - 1 {
                    assert(now[k] == before[k]);
                } else if i < before.last().len() {
                    assert(now[k][i] == before[before.len() - 1][i]);
                }
            }
            if before.len() == 1 {
                assert(before[0] == before.last());
                assert(s.drop_last().push(s.last()) == s);
            } else {
                assert(joined_by_line_feeds(now) == joined_by_line_feeds(before.drop_last())
                    + seq!['\n'] + grown);
                assert(joined_by_line_feeds(before) == joined_by_line_feeds(before.drop_last())
                    + seq!['\n'] + before.last());
                assert(joined_by_line_feeds(now) == joined_by_line_feeds(before).push(s.last()));
                assert(s.drop_last().push(s.last()) == s);
            }
        }
    }
}

/// Joining one more text puts a space before it, unless it is the first.
pub proof fn lemma_joined_push(texts: Seq<Seq<char>>, t: Seq<char>)
    ensures
        joined(texts.push(t)) == if texts.len() == 0 {
            t
        } else {
            joined(texts) + seq![' '] + t
        },
{
    assert(texts.push(t).drop_last() == texts);
}

/// The first `k` texts, joined, are the start of all the texts, joined.
pub proof fn lemma_joined_take_is_prefix(texts: Seq<Seq<char>>, k: int)
    requires
        0 <= k <= texts.len(),
    ensures
        joined(texts.take(k)).len() <= joined(texts).len(),
        joined(texts).take(joined(texts.take(k)).len() as int) == joined(texts.take(k)),
    decreases texts.len() - k,
{
    if k < texts.len() {
        lemma_joined_take_is_prefix(texts, k + 1);
        assert(texts.take(k + 1) == texts.take(k).push(texts[k]));
        lemma_joined_push(texts.take(k), texts[k]);
        let shorter = joined(texts.take(k));
        let longer = joined(texts.take(k + 1));
        assert(longer.take(shorter.len() as int) == shorter);
        assert(joined(texts).take(shorter.len() as int) == joined(texts).take(
            longer.len() as int,
        ).take(shorter.len() as int));
    } else {
        assert(texts.take(k) == texts);
    }
}

/// A word: at least one character, and none that is white space.
pub open spec fn is_word(w: Seq<char>) -> bool {
    w.len() > 0 && forall|i: int| 0 <= i < w.len() ==> !is_whitespace(#[trigger] w[i])
}

/// Each of the words of a text is a word, and a text that does not end with
/// white space has one.
pub proof fn lemma_words_are_words(s: Seq<char>)
    ensures
        forall|k: int| 0 <= k < words(s).len() ==> is_word(#[trigger] words(s)[k]),
        s.len() > 0 && !is_whitespace(s.last()) ==> words(s).len() > 0,
    decreases s.len(),
{
    if s.len() > 0 {
        let before = words(s.drop_last());
        lemma_words_are_words(s.drop_last());
        if !is_whitespace(s.last()) && s.len() >= 2 && !is_whitespace(s[s.len() - 2]) {
            assert(s.drop_last().last() == s[s.len() - 2]);
            let grown = before.last().push(s.last());
            assert(is_word(grown)) by {
                assert(is_word(before[before.len() - 1]));
                assert forall|i: int| 0 <= i < grown.len() implies !is_whitespace(
                    #[trigger] grown[i],
                ) by {
                    if i < before.last().len() {
                        assert(grown[i] == before.last()[i]);
                    }
                }
            }
            assert forall|k: int| 0 <= k < words(s).len() implies is_word(
                #[trigger] words(s)[k],
            ) by {
                if k < before.len() - 1 {
                    assert(words(s)[k] == before[k]);
                }
            }
        } else if !is_whitespace(s.last()) {
            assert forall|k: int| 0 <= k < words(s).len() implies is_word(
                #[trigger] words(s)[k],
            ) by {
                if k < before.len() {
                    assert(words(s)[k] == before[k]);
                }
            }
        }
    }
}

/// A word that follows white space, or nothing, is one more word.
pub proof fn lemma_words_append_word(u: Seq<char>, w: Seq<char>)
    requires
        is_word(w),
        u.len() == 0 || is_whitespace(u.last()),
    ensures
        words(u + w) == words(u).push(w),
    decreases w.len(),
{
    let start = w.drop_last();
    let c = w.last();
    assert(!is_whitespace(w[w.len() - 1]));
    assert((u + w).drop_last() == u + start);
    assert((u + w).last() == c);
    if start.len() == 0 {
        assert(u + start == u);
        assert(w == seq![c]);
        if u.len() > 0 {
            assert((u + w)[(u + w).len() - 2] == u.last());
        }
    } else {
        assert(is_word(start)) by {
            assert forall|i: int| 0 <= i < start.len() implies !is_whitespace(
                #[trigger] start[i],
            ) by {
                assert(start[i] == w[i]);
            }
        }
        lemma_words_append_word(u, start);
        assert((u + w)[(u + w).len() - 2] == start.last());
        assert(start.last() == w[w.len() - 2]);
        assert(start.push(c) == w);
        assert(words(u).push(start).drop_last() == words(u));
    }
}

/// Joining words and cutting the result into words gives the words back.
pub proof fn lemma_words_of_joined(ws: Seq<Seq<char>>)
    requires
        forall|k: int| 0 <= k < ws.len() ==> is_word(#[trigger] ws[k]),
    ensures
        words(joined(ws)) == ws,
    decreases ws.len(),
{
    if ws.len() == 1 {
        lemma_words_append_word(Seq::empty(), ws[0]);
        assert(Seq::<char>::empty() + ws[0] == ws[0]);
        assert(Seq::<Seq<char>>::empty().push(ws[0]) == ws);
    } else if ws.len() > 1 {
        let before = ws.drop_last();
        assert forall|k: int| 0 <= k < before.len() implies is_word(#[trigger] before[k]) by {
            assert(before[k] == ws[k]);
        }
        lemma_words_of_joined(before);
        let u = joined(before) + seq![' '];
        assert(u == joined(before).push(' '));
        assert(u.drop_last() == joined(before));
        assert(words(u) == before);
        assert(is_word(ws[ws.len() - 1]));
        lemma_words_append_word(u, ws.last());
        assert(before.push(ws.last()) == ws);
    }
}

/// Whether `c` is white space.
pub fn char_is_whitespace(c: char) -> (r: bool)
    ensures
        r == is_whitespace(c),
{
    let n: u32 = c as u32;
    (0x09 <= n && n <= 0x0d) || n == 0x20 || n == 0x85 || n == 0xa0 || n == 0x1680 || (0x2000 <= n
        && n <= 0x200a) || n == 0x2028 || n == 0x2029 || n == 0x202f || n == 0x205f || n == 0x3000
}

/// `String::push`: the string afterwards is the string before with `c` at its
/// end.
#[verifier::external_body]
pub(crate) fn push_char(s: &mut String, c: char)
    ensures
        final(s)@ == old(s)@.push(c),
{
    s.push(c);
}

/// The characters of `s` in a buffer.
pub fn chars_of(s: &str) -> (v: Vec<char>)
    ensures
        v@ == s@,
{
    let mut v: Vec<char> = Vec::new();
    for c in it: s.chars()
        invariant
            v@ == s@.take(it.index() as int),
            it.seq() == s@,
    {
        v.push(c);
    }
    v
}

/// The string that holds the characters `v[from..to]`.
pub(crate) fn string_of(v: &Vec<char>, from: usize, to: usize) -> (s: String)
    requires
        from <= to <= v.len(),
    ensures
        s@ == v@.subrange(from as int, to as int),
{
    let mut s = String::new();
    let mut i: usize = from;
    while i < to
        invariant
            from <= i <= to <= v.len(),
            s@ == v@.subrange(from as int, i as int),
        decreases to - i,
    {
        push_char(&mut s, v[i]);
        i = i + 1;
    }
    s
}

/// Whether two buffers hold the same characters.
pub fn same_chars(a: &Vec<char>, b: &Vec<char>) -> (r: bool)
    ensures
        r == (a@ == b@),
{
    if a.len() != b.len() {
        return false;
    }
    let mut i: usize = 0;
    while i < a.len()
        invariant
            i <= a.len(),
            a.len() == b.len(),
            a@.take(i as int) == b@.take(i as int),
        decreases a.len() - i,
    {
        if a[i] != b[i] {
            return false;
        }
        assert(a@.take(i + 1) == a@.take(i as int).push(a@[i as int]));
        assert(b@.take(i + 1) == b@.take(i as int).push(b@[i as int]));
        i = i + 1;
    }
    assert(a@ == a@.take(a.len() as int));
    assert(b@ == b@.take(b.len() as int));
    true
}

/// The characters of `v` without the white space at either end.
pub fn trim_buffer(v: &Vec<char>) -> (s: String)
    ensures
        s@ == trimmed(v@),
{
    let mut a: usize = 0;
    assert(v@.skip(0) == v@);
    while a < v.len() && char_is_whitespace(v[a])
        invariant
            a <= v.len(),
            trim_start(v@) == trim_start(v@.skip(a as int)),
        decreases v.len() - a,
    {
        assert(v@.skip(a as int).skip(1) == v@.skip(a + 1));
        a = a + 1;
    }
    let mut b: usize = v.len();
    assert(v@.subrange(a as int, b as int) == v@.skip(a as int));
    while b > a && char_is_whitespace(v[b - 1])
        invariant
            a <= b <= v.len(),
            trim_end(v@.skip(a as int)) == trim_end(v@.subrange(a as int, b as int)),
        decreases b - a,
    {
        assert(v@.subrange(a as int, b as int).drop_last() == v@.subrange(a as int, b - 1));
        b = b - 1;
    }
    string_of(v, a, b)
}

/// `s` without the white space at either end.
pub fn trim(s: &str) -> (r: String)
    ensures
        r@ == trimmed(s@),
{
    let v = chars_of(s);
    trim_buffer(&v)
}

/// The lines of `raw`, each without the white space at either end.
pub fn trimmed_lines(raw: &str) -> (out: Vec<String>)
    ensures
        string_views(out@) == text_lines(raw@).map_values(|l: Seq<char>| trimmed(l)),
{
    let mut out: Vec<String> = Vec::new();
    let mut cur: Vec<char> = Vec::new();
    let ghost mut done: Seq<Seq<char>> = Seq::empty();
    assert(raw@.take(0) == Seq::<char>::empty());
    assert(line_pieces(raw@.take(0)) == done.push(cur@));
    assert(string_views(out@) == done.map_values(|l: Seq<char>| trimmed(l)));
    for c in it: raw.chars()
        invariant
            it.seq() == raw@,
            line_pieces(raw@.take(it.index() as int)) == done.push(cur@),
            string_views(out@) == done.map_values(|l: Seq<char>| trimmed(l)),
    {
        proof {
            let i = it.index() as int;
            assert(raw@.take(i + 1).drop_last() == raw@.take(i));
            assert(raw@.take(i + 1).last() == c);
        }
        if c == '\n' {
            let line = trim_buffer(&cur);
            proof {
                assert(string_views(out@.push(line)) == string_views(out@).push(line@));
                assert(done.push(cur@).map_values(|l: Seq<char>| trimmed(l)) == done.map_values(
                    |l: Seq<char>| trimmed(l),
                ).push(trimmed(cur@)));
                done = done.push(cur@);
            }
            out.push(line);
            cur = Vec::new();
        } else {
            proof {
                assert(done.push(cur@).drop_last() == done);
            }
            cur.push(c);
        }
    }
    assert(raw@.take(raw@.len() as int) == raw@);
    if cur.len() > 0 {
        let line = trim_buffer(&cur);
        proof {
            assert(string_views(out@.push(line)) == string_views(out@).push(line@));
            assert(done.push(cur@).map_values(|l: Seq<char>| trimmed(l)) == done.map_values(
                |l: Seq<char>| trimmed(l),
            ).push(trimmed(cur@)));
        }
        out.push(line);
    } else {
        assert(done.push(cur@).drop_last() == done);
    }
    out
}

/// The words of `s`.
pub fn split_words(s: &str) -> (out: Vec<Vec<char>>)
    ensures
        views(out@) == words(s@),
{
    let mut out: Vec<Vec<char>> = Vec::new();
    let mut cur: Vec<char> = Vec::new();
    assert(s@.take(0) == Seq::<char>::empty());
    assert(views(out@) == words(s@.take(0)));
    for c in it: s.chars()
        invariant
            it.seq() == s@,
            cur.len() > 0 <==> it.index() > 0 && !is_whitespace(s@[it.index() - 1]),
            words(s@.take(it.index() as int)) == if cur.len() > 0 {
                views(out@).push(cur@)
            } else {
                views(out@)
            },
    {
        proof {
            let i = it.index() as int;
            assert(s@.take(i + 1).drop_last() == s@.take(i));
            assert(s@.take(i + 1).last() == c);
            if i > 0 {
                assert(s@.take(i + 1)[i - 1] == s@[i - 1]);
            }
        }
        if char_is_whitespace(c) {
            if cur.len() > 0 {
                proof {
                    assert(views(out@.push(cur)) == views(out@).push(cur@));
                }
                out.push(cur);
                cur = Vec::new();
            }
        } else {
            proof {
                if cur.len() > 0 {
                    assert(views(out@).push(cur@).drop_last() == views(out@));
                } else {
                    assert(cur@.push(c) == seq![c]);
                }
            }
            cur.push(c);
        }
    }
    assert(s@.take(s@.len() as int) == s@);
    if cur.len() > 0 {
        proof {
            assert(views(out@.push(cur)) == views(out@).push(cur@));
        }
        out.push(cur);
    }
    out
}

/// The words `ws`, joined with one space between neighbours.
pub fn join_words(ws: &Vec<Vec<char>>) -> (r: String)
    ensures
        r@ == joined(views(ws@)),
{
    let mut r = String::new();
    let mut i: usize = 0;
    assert(views(ws@).take(0) == Seq::<Seq<char>>::empty());
    while i < ws.len()
        invariant
            i <= ws.len(),
            r@ == joined(views(ws@).take(i as int)),
        decreases ws.len() - i,
    {
        proof {
            let upto = views(ws@).take(i + 1);
            assert(upto.drop_last() == views(ws@).take(i as int));
            assert(upto.last() == ws@[i as int]@);
            if i == 0 {
                assert(joined(upto) == ws@[0]@);
            }
        }
        if i > 0 {
            push_char(&mut r, ' ');
        }
        let w = &ws[i];
        let ghost before = r@;
        let mut j: usize = 0;
        while j < w.len()
            invariant
                j <= w.len(),
                r@ == before + w@.take(j as int),
            decreases w.len() - j,
        {
            push_char(&mut r, w[j]);
            assert(w@.take(j + 1) == w@.take(j as int).push(w@[j as int]));
            j = j + 1;
        }
        assert(w@.take(w.len() as int) == w@);
        i = i + 1;
    }
    assert(views(ws@).take(ws.len() as int) == views(ws@));
    r
}

/// The character for the digit `d`.
fn digit_char(d: u8) -> (c: char)
    requires
        d < 10,
    ensures
        c == digit(d as nat),
{
    if d == 0 {
        '0'
    } else if d == 1 {
        '1'
    } else if d == 2 {
        '2'
    } else if d == 3 {
        '3'
    } else if d == 4 {
        '4'
    } else if d == 5 {
        '5'
    } else if d == 6 {
        '6'
    } else if d == 7 {
        '7'
    } else if d == 8 {
        '8'
    } else {
        '9'
    }
}

/// Writes `n` in base ten at the end of `s`.
pub fn push_decimal(s: &mut String, n: u128)
    ensures
        final(s)@ == old(s)@ + decimal(n as nat),
    decreases n,
{
    if n >= 10 {
        push_decimal(s, n / 10);
    }
    push_char(s, digit_char((n % 10) as u8));
}

} // verus!
