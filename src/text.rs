//! Splitting a line into whitespace-separated tokens.
use vstd::prelude::*;

verus! {

/// A character with the Unicode `White_Space` property, as `char::is_whitespace` decides it.
pub open spec fn is_space(c: char) -> bool {
    let u = c as u32;
    (0x9 <= u && u <= 0xd) || u == 0x20 || u == 0x85 || u == 0xa0 || u == 0x1680
        || (0x2000 <= u && u <= 0x200a) || u == 0x2028 || u == 0x2029 || u == 0x202f
        || u == 0x205f || u == 0x3000
}

/// The tokens of `s`: its maximal runs of non-space characters, in order.
/// Read left to right, a non-space character extends the last token when the
/// character before it is not a space, and starts a new token otherwise.
pub open spec fn tokens(s: Seq<char>) -> Seq<Seq<char>>
    decreases s.len(),
{
    if s.len() == 0 {
        Seq::empty()
    } else {
        let prev = tokens(s.drop_last());
        let c = s.last();
        if is_space(c) {
            prev
        } else if s.len() >= 2 && !is_space(s[s.len() - 2]) {
            prev.drop_last().push(prev.last().push(c))
        } else {
            prev.push(seq![c])
        }
    }
}

/// The texts that `spans` pick out of `s`, each span a half-open range of positions.
pub open spec fn span_texts(s: Seq<char>, spans: Seq<(usize, usize)>) -> Seq<Seq<char>> {
    Seq::new(spans.len(), |k: int| s.subrange(spans[k].0 as int, spans[k].1 as int))
}

/// Every span of `spans` is a non-empty range inside `0..n`.
pub open spec fn spans_within(spans: Seq<(usize, usize)>, n: int) -> bool {
    forall|k: int| 0 <= k < spans.len() ==> #[trigger] spans[k].0 < spans[k].1 <= n
}

/// Whether `c` is a whitespace character.
pub fn is_space_char(c: char) -> (r: bool)
    ensures
        r == is_space(c),
{
    let u = c as u32;
    (0x9 <= u && u <= 0xd) || u == 0x20 || u == 0x85 || u == 0xa0 || u == 0x1680
        || (0x2000 <= u && u <= 0x200a) || u == 0x2028 || u == 0x2029 || u == 0x202f
        || u == 0x205f || u == 0x3000
}

/// The characters of `s`, one by one.
pub fn chars_of(s: &str) -> (r: Vec<char>)
    ensures
        r@ == s@,
{
    let mut r: Vec<char> = Vec::new();
    for c in it: s.chars()
        invariant
            r@ == it.seq().take(it.index() as int),
    {
        r.push(c);
    }
    r
}

/// The positions of the tokens of `text`, as half-open ranges.
pub fn token_spans(text: &Vec<char>) -> (r: Vec<(usize, usize)>)
    ensures
        spans_within(r@, text@.len() as int),
        span_texts(text@, r@) == tokens(text@),
{
    let ghost s = text@;
    let n = text.len();
    let mut spans: Vec<(usize, usize)> = Vec::new();
    let mut start: usize = 0;
    let mut in_word = false;
    let mut i: usize = 0;
    while i < n
        invariant
            n == s.len(),
            s == text@,
            i <= n,
            spans_within(spans@, i as int),
            in_word == (i > 0 && !is_space(s[i - 1])),
            in_word ==> start < i,
            !in_word ==> tokens(s.take(i as int)) == span_texts(s, spans@),
            in_word ==> tokens(s.take(i as int)) == span_texts(s, spans@).push(
                s.subrange(start as int, i as int),
            ),
        decreases n - i,
    {
        let c = text[i];
        let ghost pre = s.take(i as int);
        let ghost cur = s.take(i + 1);
        assert(cur.drop_last() =~= pre);
        assert(cur.last() == c);
        if i > 0 {
            assert(cur[cur.len() - 2] == s[i - 1]);
        }
        if is_space_char(c) {
            if in_word {
                let ghost old_spans = spans@;
                spans.push((start, i));
                assert(span_texts(s, spans@) =~= span_texts(s, old_spans).push(
                    s.subrange(start as int, i as int),
                ));
            }
            in_word = false;
        } else {
            if in_word {
                let ghost prev = tokens(pre);
                assert(prev.drop_last() =~= span_texts(s, spans@));
                assert(prev.last().push(c) =~= s.subrange(start as int, i + 1));
                assert(tokens(cur) =~= span_texts(s, spans@).push(
                    s.subrange(start as int, i + 1),
                ));
            } else {
                start = i;
                assert(seq![c] =~= s.subrange(i as int, i + 1));
            }
            in_word = true;
        }
        i = i + 1;
    }
    assert(s.take(n as int) =~= s);
    if in_word {
        let ghost old_spans = spans@;
        spans.push((start, n));
        assert(span_texts(s, spans@) =~= span_texts(s, old_spans).push(
            s.subrange(start as int, n as int),
        ));
    }
    spans
}

/// Every character of `w` is a space.
pub open spec fn all_space(w: Seq<char>) -> bool {
    forall|i: int| 0 <= i < w.len() ==> is_space(#[trigger] w[i])
}

/// No character of `w` is a space.
pub open spec fn no_space(w: Seq<char>) -> bool {
    forall|i: int| 0 <= i < w.len() ==> !is_space(#[trigger] w[i])
}

proof fn lemma_open_token(s: Seq<char>)
    requires
        s.len() > 0,
        !is_space(s.last()),
    ensures
        tokens(s).len() > 0,
    decreases s.len(),
{
    if s.len() >= 2 && !is_space(s[s.len() - 2]) {
        assert(s.drop_last().last() == s[s.len() - 2]);
        lemma_open_token(s.drop_last());
    }
}

proof fn lemma_trailing_space(a: Seq<char>, w: Seq<char>)
    requires
        all_space(w),
    ensures
        tokens(a + w) == tokens(a),
    decreases w.len(),
{
    if w.len() > 0 {
        assert((a + w).drop_last() =~= a + w.drop_last());
        assert((a + w).last() == w.last());
        lemma_trailing_space(a, w.drop_last());
    } else {
        assert(a + w =~= a);
    }
}

/// A run of spaces separates tokens: the tokens of `a`, the run `w` and `b`
/// are those of `a` followed by those of `b`.
pub proof fn lemma_tokens_across_space(a: Seq<char>, w: Seq<char>, b: Seq<char>)
    requires
        w.len() > 0,
        all_space(w),
    ensures
        tokens(a + w + b) == tokens(a) + tokens(b),
    decreases b.len(),
{
    let s = a + w + b;
    if b.len() == 0 {
        assert(s =~= a + w);
        lemma_trailing_space(a, w);
        assert(tokens(a) + tokens(b) =~= tokens(a));
    } else {
        let b1 = b.drop_last();
        let c = b.last();
        assert(s.drop_last() =~= a + w + b1);
        assert(s.last() == c);
        lemma_tokens_across_space(a, w, b1);
        let p = tokens(a);
        let q = tokens(b1);
        if is_space(c) {
            assert(tokens(b) == q);
        } else if b.len() >= 2 && !is_space(b[b.len() - 2]) {
            assert(s[s.len() - 2] == b[b.len() - 2]);
            assert(b1.last() == b[b.len() - 2]);
            lemma_open_token(b1);
            assert((p + q).drop_last() =~= p + q.drop_last());
            assert((p + q).last() == q.last());
            assert(tokens(s) =~= p + tokens(b));
        } else {
            if b.len() >= 2 {
                assert(s[s.len() - 2] == b[b.len() - 2]);
            } else {
                assert(s[s.len() - 2] == w.last());
            }
            assert(tokens(s) =~= p + tokens(b));
        }
    }
}

/// A non-empty text without spaces is one token.
pub proof fn lemma_single_token(w: Seq<char>)
    requires
        w.len() > 0,
        no_space(w),
    ensures
        tokens(w) == seq![w],
    decreases w.len(),
{
    if w.len() >= 2 {
        let w1 = w.drop_last();
        lemma_single_token(w1);
        assert(w[w.len() - 2] == w1.last());
        assert(w1.push(w.last()) =~= w);
        assert(tokens(w) =~= seq![w]);
    } else {
        assert(tokens(w.drop_last()) =~= Seq::<Seq<char>>::empty());
        assert(seq![w.last()] =~= w);
        assert(tokens(w) =~= seq![w]);
    }
}

/// How long a run of spaces between two parts of a text is, and which spaces
/// it holds, does not change the tokens.
pub proof fn lemma_space_runs_alike(a: Seq<char>, w1: Seq<char>, w2: Seq<char>, b: Seq<char>)
    requires
        w1.len() > 0,
        all_space(w1),
        w2.len() > 0,
        all_space(w2),
    ensures
        tokens(a + w1 + b) == tokens(a + w2 + b),
{
    lemma_tokens_across_space(a, w1, b);
    lemma_tokens_across_space(a, w2, b);
}

} // verus!
