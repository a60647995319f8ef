//! The record, its parser and its comparison by tolerance.
use vstd::prelude::*;
use vstd::string::StrSliceExecFns;

use crate::number::{
    check_float_literal, decimal, index_value, is_float_literal, lemma_decimal_index, parse_index,
    strip_sign,
};
use crate::text::{
    all_space, chars_of, lemma_single_token, lemma_space_runs_alike, lemma_tokens_across_space,
    no_space, span_texts, spans_within, token_spans, tokens,
};

verus! {

/// Four indices and a weight. The weight's type is left open: the parser
/// hands it out as the text of its token, which callers read as a number.
#[derive(Debug, Clone, Copy, PartialEq)]
pub struct Fc<W>(pub usize, pub usize, pub usize, pub usize, pub W);

/// The one way in which a line can fail to be read as a record.
#[derive(Debug, Clone, Copy, PartialEq, Eq, Structural)]
pub struct ParseError;

impl ParseError {
    /// The text that describes this error.
    pub fn message(&self) -> (r: &'static str)
        ensures
            r@ == "failed to parse record from string"@,
    {
        "failed to parse record from string"
    }
}

/// The fields that the line `s` writes, the weight as the text of its token:
/// exactly five tokens, four indices and a floating-point literal.
/// `None` for any other line.
pub open spec fn line_fields(s: Seq<char>) -> Option<(usize, usize, usize, usize, Seq<char>)> {
    let t = tokens(s);
    if t.len() == 5 && index_value(t[0]) is Some && index_value(t[1]) is Some && index_value(
        t[2],
    ) is Some && index_value(t[3]) is Some && is_float_literal(t[4]) {
        Some(
            (
                index_value(t[0])->0,
                index_value(t[1])->0,
                index_value(t[2])->0,
                index_value(t[3])->0,
                t[4],
            ),
        )
    } else {
        None
    }
}

impl<W> Fc<W> {
    /// The four indices, in order.
    pub open spec fn indices(&self) -> (usize, usize, usize, usize) {
        (self.0, self.1, self.2, self.3)
    }

    /// Whether the two records have the same four indices.
    pub fn same_indices(&self, other: &Fc<W>) -> (r: bool)
        ensures
            r == (self.indices() == other.indices()),
    {
        self.0 == other.0 && self.1 == other.1 && self.2 == other.2 && self.3 == other.3
    }

    /// Whether the two records are equal up to a tolerance on the weight:
    /// the indices must be equal, and `close` then decides on the two weights.
    /// `close` is not called when the indices differ.
    pub fn approx_eq_by<F: Fn(&W, &W) -> bool>(&self, other: &Fc<W>, close: F) -> (r: bool)
        requires
            close.requires((&self.4, &other.4)),
        ensures
            self.indices() != other.indices() ==> !r,
            self.indices() == other.indices() ==> close.ensures((&self.4, &other.4), r),
    {
        self.same_indices(other) && close(&self.4, &other.4)
    }
}

/// Reads a record from one line of text. The weight comes back as the text
/// of its token, which is a floating-point literal.
pub fn parse_line<'a>(line: &'a str) -> (r: Result<Fc<&'a str>, ParseError>)
    ensures
        match r {
            Ok(f) => line_fields(line@) == Some((f.0, f.1, f.2, f.3, f.4@)),
            Err(_) => line_fields(line@) is None,
        },
{
    let text = chars_of(line);
    let spans = token_spans(&text);
    let ghost t = tokens(line@);
    assert(span_texts(text@, spans@) == t);
    if spans.len() != 5 {
        return Err(ParseError);
    }
    let all = text.as_slice();
    let mut idx: [usize; 4] = [0, 0, 0, 0];
    let mut k: usize = 0;
    while k < 4
        invariant
            spans@.len() == 5,
            all@ == line@,
            spans_within(spans@, all@.len() as int),
            span_texts(all@, spans@) == t,
            t.len() == 5,
            t == tokens(line@),
            k <= 4,
            forall|x: int| 0 <= x < k ==> index_value(#[trigger] t[x]) == Some(idx@[x]),
        decreases 4 - k,
    {
        let (a, b) = spans[k];
        assert(a < b <= all@.len()) by {
            assert(spans@[k as int].0 < spans@[k as int].1 <= all@.len());
        }
        let tok = vstd::slice::slice_subrange(all, a, b);
        assert(tok@ == t[k as int]);
        match parse_index(tok) {
            Some(v) => {
                idx[k] = v;
            },
            None => {
                return Err(ParseError);
            },
        }
        k = k + 1;
    }
    let (a, b) = spans[4];
    assert(a < b <= all@.len()) by {
        assert(spans@[4].0 < spans@[4].1 <= all@.len());
    }
    let tok = vstd::slice::slice_subrange(all, a, b);
    assert(tok@ == t[4]);
    if !check_float_literal(tok) {
        return Err(ParseError);
    }
    let weight = line.substring_char(a, b);
    Ok(Fc(idx[0], idx[1], idx[2], idx[3], weight))
}

/// A line whose token count is not five writes no record.
pub proof fn lemma_five_tokens_needed(s: Seq<char>)
    requires
        tokens(s).len() != 5,
    ensures
        line_fields(s) is None,
{
}

/// The line `"{i0} {i1} {i2} {i3} {w}"`, each index written in decimal,
/// reads back as those indices and that weight token. A finite `f64`
/// written with `{}` gives such a token: a floating-point literal without spaces.
pub proof fn lemma_round_trip(i0: usize, i1: usize, i2: usize, i3: usize, w: Seq<char>)
    requires
        is_float_literal(w),
        no_space(w),
    ensures
        line_fields(
            decimal(i0 as nat) + seq![' '] + decimal(i1 as nat) + seq![' '] + decimal(i2 as nat)
                + seq![' '] + decimal(i3 as nat) + seq![' '] + w,
        ) == Some((i0, i1, i2, i3, w)),
{
    let sp = seq![' '];
    assert(all_space(sp));
    let d0 = decimal(i0 as nat);
    let d1 = decimal(i1 as nat);
    let d2 = decimal(i2 as nat);
    let d3 = decimal(i3 as nat);
    lemma_decimal_index(i0);
    lemma_decimal_index(i1);
    lemma_decimal_index(i2);
    lemma_decimal_index(i3);
    assert(strip_sign(w).len() > 0);
    lemma_single_token(d0);
    lemma_single_token(d1);
    lemma_single_token(d2);
    lemma_single_token(d3);
    lemma_single_token(w);
    let x1 = d0 + sp + d1;
    let x2 = x1 + sp + d2;
    let x3 = x2 + sp + d3;
    lemma_tokens_across_space(d0, sp, d1);
    lemma_tokens_across_space(x1, sp, d2);
    lemma_tokens_across_space(x2, sp, d3);
    lemma_tokens_across_space(x3, sp, w);
    assert(tokens(x3 + sp + w) =~= seq![d0, d1, d2, d3, w]);
}

/// How long a run of spaces between two parts of a line is, and which spaces
/// it holds, does not change what the line reads as.
pub proof fn lemma_space_runs_read_alike(a: Seq<char>, w1: Seq<char>, w2: Seq<char>, b: Seq<char>)
    requires
        w1.len() > 0,
        all_space(w1),
        w2.len() > 0,
        all_space(w2),
    ensures
        line_fields(a + w1 + b) == line_fields(a + w2 + b),
{
    lemma_space_runs_alike(a, w1, w2, b);
}

/// Spaces before or after a line do not change what it reads as.
pub proof fn lemma_outer_space_ignored(w: Seq<char>, s: Seq<char>)
    requires
        all_space(w),
    ensures
        line_fields(w + s) == line_fields(s),
        line_fields(s + w) == line_fields(s),
{
    let e = Seq::<char>::empty();
    if w.len() > 0 {
        lemma_tokens_across_space(e, w, s);
        assert(e + w + s =~= w + s);
        assert(tokens(e) + tokens(s) =~= tokens(s));
        lemma_tokens_across_space(s, w, e);
        assert(s + w + e =~= s + w);
        assert(tokens(s) + tokens(e) =~= tokens(s));
    } else {
        assert(w + s =~= s);
        assert(s + w =~= s);
    }
}

} // verus!
