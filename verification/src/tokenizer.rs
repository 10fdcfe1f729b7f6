//! The tokenizer: one lexical pattern per token category, and the ordered,
//! non-overlapping, leftmost matches of that pattern in a byte buffer.
//!
//! The patterns, scanning left to right with maximal runs:
//! - field:     `field_` then one or more digits, one or more letters, and
//!   optionally one trailing underscore;
//! - method:    `func_` then one or more digits, one or more letters, and
//!   optionally one trailing underscore;
//! - parameter: `p_` then one or more digits, an underscore, one or more
//!   digits, and a final underscore.

use vstd::prelude::*;
use crate::bytes::occurs_at;
use crate::bytes::occurs_at_exec;

verus! {

/// One token category, with its own lexical pattern and its own mapping.
#[derive(Clone, Copy, PartialEq, Eq, Debug)]
pub enum Category {
    Field,
    Method,
    Param,
}

pub open spec fn is_digit(b: u8) -> bool {
    48u8 <= b <= 57u8
}

pub open spec fn is_alpha(b: u8) -> bool {
    (65u8 <= b <= 90u8) || (97u8 <= b <= 122u8)
}

/// The length of the maximal run of decimal digits starting at `i`.
pub open spec fn digit_run(s: Seq<u8>, i: int) -> int
    decreases s.len() - i,
{
    if 0 <= i < s.len() && is_digit(s[i]) {
        1 + digit_run(s, i + 1)
    } else {
        0
    }
}

/// The length of the maximal run of letters starting at `i`.
pub open spec fn alpha_run(s: Seq<u8>, i: int) -> int
    decreases s.len() - i,
{
    if 0 <= i < s.len() && is_alpha(s[i]) {
        1 + alpha_run(s, i + 1)
    } else {
        0
    }
}

pub proof fn lemma_digit_run_bound(s: Seq<u8>, i: int)
    requires
        0 <= i <= s.len(),
    ensures
        0 <= digit_run(s, i) <= s.len() - i,
    decreases s.len() - i,
{
    if i < s.len() && is_digit(s[i]) {
        lemma_digit_run_bound(s, i + 1);
    }
}

pub proof fn lemma_alpha_run_bound(s: Seq<u8>, i: int)
    requires
        0 <= i <= s.len(),
    ensures
        0 <= alpha_run(s, i) <= s.len() - i,
    decreases s.len() - i,
{
    if i < s.len() && is_alpha(s[i]) {
        lemma_alpha_run_bound(s, i + 1);
    }
}

/// The literal prefix of a category's pattern.
pub open spec fn prefix_of(cat: Category) -> Seq<u8> {
    match cat {
        Category::Field => seq![102u8, 105u8, 101u8, 108u8, 100u8, 95u8],
        Category::Method => seq![102u8, 117u8, 110u8, 99u8, 95u8],
        Category::Param => seq![112u8, 95u8],
    }
}

/// The length of the pattern match starting at position `i`, or 0 when the
/// pattern does not match there. A match is never empty: it contains at
/// least the category's prefix and one digit.
pub open spec fn match_len_at(s: Seq<u8>, cat: Category, i: int) -> int {
    let p = prefix_of(cat).len() as int;
    if !occurs_at(s, prefix_of(cat), i) {
        0
    } else {
        match cat {
            Category::Field => body_len(s, i + p, p),
            Category::Method => body_len(s, i + p, p),
            Category::Param => param_body_len(s, i + p, p),
        }
    }
}

/// After the prefix of a field or method token: one or more digits, one or
/// more letters, optionally one underscore. Returns the whole match length
/// (prefix included), or 0.
pub open spec fn body_len(s: Seq<u8>, j: int, p: int) -> int {
    let d = digit_run(s, j);
    let a = alpha_run(s, j + d);
    if d >= 1 && a >= 1 {
        if j + d + a < s.len() && s[j + d + a] == 95u8 {
            p + d + a + 1
        } else {
            p + d + a
        }
    } else {
        0
    }
}

/// After the prefix of a parameter token: one or more digits, an
/// underscore, one or more digits, a final underscore. Returns the whole
/// match length (prefix included), or 0.
pub open spec fn param_body_len(s: Seq<u8>, j: int, p: int) -> int {
    let d1 = digit_run(s, j);
    if d1 >= 1 && j + d1 < s.len() && s[j + d1] == 95u8 {
        let d2 = digit_run(s, j + d1 + 1);
        if d2 >= 1 && j + d1 + 1 + d2 < s.len() && s[j + d1 + 1 + d2] == 95u8 {
            p + d1 + 1 + d2 + 1
        } else {
            0
        }
    } else {
        0
    }
}

pub proof fn lemma_match_len_bound(s: Seq<u8>, cat: Category, i: int)
    requires
        0 <= i <= s.len(),
    ensures
        match_len_at(s, cat, i) == 0 || (prefix_of(cat).len() < match_len_at(s, cat, i) && i
            + match_len_at(s, cat, i) <= s.len()),
{
    let p = prefix_of(cat).len() as int;
    if occurs_at(s, prefix_of(cat), i) {
        lemma_digit_run_bound(s, i + p);
        let d = digit_run(s, i + p);
        lemma_alpha_run_bound(s, i + p + d);
        if i + p + d + 1 <= s.len() {
            lemma_digit_run_bound(s, i + p + d + 1);
        }
    }
}

/// The ordered non-overlapping matches of the category's pattern in `s`
/// from position `i` on: at each position the pattern either matches (the
/// span is taken and scanning resumes at its end) or scanning moves one
/// byte right.
pub open spec fn token_spans_from(s: Seq<u8>, cat: Category, i: int) -> Seq<(int, int)>
    decreases s.len() - i,
    via token_spans_from_decreases
{
    if i < 0 || i >= s.len() {
        Seq::empty()
    } else {
        let l = match_len_at(s, cat, i);
        if l > 0 {
            seq![(i, i + l)] + token_spans_from(s, cat, i + l)
        } else {
            token_spans_from(s, cat, i + 1)
        }
    }
}

#[via_fn]
proof fn token_spans_from_decreases(s: Seq<u8>, cat: Category, i: int) {
    if 0 <= i < s.len() {
        lemma_match_len_bound(s, cat, i);
    }
}

/// All matches of the category's pattern in `s`, leftmost first.
pub open spec fn token_spans(s: Seq<u8>, cat: Category) -> Seq<(int, int)> {
    token_spans_from(s, cat, 0)
}

/// Well-formed span list: each span lies at or after `from`, is non-empty,
/// ends within the buffer, and the spans come in increasing order.
pub open spec fn wf_spans(spans: Seq<(int, int)>, from: int, len: int) -> bool
    decreases spans.len(),
{
    if spans.len() == 0 {
        true
    } else {
        from <= spans[0].0 && spans[0].0 < spans[0].1 && spans[0].1 <= len && wf_spans(
            spans.drop_first(),
            spans[0].1,
            len,
        )
    }
}

pub proof fn lemma_wf_spans_weaken(spans: Seq<(int, int)>, from1: int, from2: int, len: int)
    requires
        wf_spans(spans, from1, len),
        from2 <= from1,
    ensures
        wf_spans(spans, from2, len),
    decreases spans.len(),
{
}

pub proof fn lemma_token_spans_wf(s: Seq<u8>, cat: Category, i: int)
    requires
        0 <= i,
    ensures
        wf_spans(token_spans_from(s, cat, i), i, s.len() as int),
    decreases s.len() - i,
{
    if i < s.len() {
        let l = match_len_at(s, cat, i);
        lemma_match_len_bound(s, cat, i);
        if l > 0 {
            lemma_token_spans_wf(s, cat, i + l);
            assert(token_spans_from(s, cat, i).drop_first() =~= token_spans_from(s, cat, i + l));
        } else {
            lemma_token_spans_wf(s, cat, i + 1);
            lemma_wf_spans_weaken(token_spans_from(s, cat, i + 1), i + 1, i, s.len() as int);
        }
    }
}

/// One span is an actual pattern match: its length is exactly the
/// pattern's match length at its start, and that length is positive.
pub open spec fn span_is_match(s: Seq<u8>, cat: Category, sp: (int, int)) -> bool {
    sp.1 - sp.0 == match_len_at(s, cat, sp.0) && match_len_at(s, cat, sp.0) > 0
}

/// Law: every span the tokenizer produces is an actual pattern match.
pub proof fn lemma_token_spans_are_matches(s: Seq<u8>, cat: Category, i: int)
    requires
        0 <= i,
    ensures
        forall|j: int|
            0 <= j < token_spans_from(s, cat, i).len() ==> span_is_match(
                s,
                cat,
                #[trigger] token_spans_from(s, cat, i)[j],
            ),
    decreases s.len() - i,
{
    if i < s.len() {
        let l = match_len_at(s, cat, i);
        lemma_match_len_bound(s, cat, i);
        if l > 0 {
            lemma_token_spans_are_matches(s, cat, i + l);
            assert forall|j: int| 0 <= j < token_spans_from(s, cat, i).len() implies span_is_match(
                s,
                cat,
                #[trigger] token_spans_from(s, cat, i)[j],
            ) by {
                if j == 0 {
                    assert(token_spans_from(s, cat, i)[0] == (i, i + l));
                } else {
                    assert(token_spans_from(s, cat, i)[j] == token_spans_from(s, cat, i + l)[j
                        - 1]);
                }
            }
        } else {
            lemma_token_spans_are_matches(s, cat, i + 1);
            assert forall|j: int| 0 <= j < token_spans_from(s, cat, i).len() implies span_is_match(
                s,
                cat,
                #[trigger] token_spans_from(s, cat, i)[j],
            ) by {
                assert(token_spans_from(s, cat, i)[j] == token_spans_from(s, cat, i + 1)[j]);
            }
        }
    }
}

/// No position in `[lo, hi)` starts a pattern match.
pub open spec fn no_match_between(s: Seq<u8>, cat: Category, lo: int, hi: int) -> bool {
    forall|p: int| lo <= p < hi ==> match_len_at(s, cat, p) == 0
}

/// The span list is leftmost-complete from position `i` on: the pattern
/// matches nowhere before the first span, nowhere in any gap between
/// spans, and nowhere after the last span.
pub open spec fn leftmost_spans(s: Seq<u8>, cat: Category, spans: Seq<(int, int)>, i: int) -> bool
    decreases spans.len(),
{
    if spans.len() == 0 {
        no_match_between(s, cat, i, s.len() as int)
    } else {
        no_match_between(s, cat, i, spans[0].0) && leftmost_spans(
            s,
            cat,
            spans.drop_first(),
            spans[0].1,
        )
    }
}

/// Law: the tokenizer misses nothing — its span list is leftmost-complete.
pub proof fn lemma_token_spans_complete(s: Seq<u8>, cat: Category, i: int)
    requires
        0 <= i,
    ensures
        leftmost_spans(s, cat, token_spans_from(s, cat, i), i),
    decreases s.len() - i,
{
    if i < s.len() {
        let l = match_len_at(s, cat, i);
        lemma_match_len_bound(s, cat, i);
        if l > 0 {
            lemma_token_spans_complete(s, cat, i + l);
            assert(token_spans_from(s, cat, i).drop_first() =~= token_spans_from(s, cat, i + l));
        } else {
            lemma_token_spans_complete(s, cat, i + 1);
            let spans = token_spans_from(s, cat, i);
            assert(spans == token_spans_from(s, cat, i + 1));
            if spans.len() == 0 {
                assert forall|p: int| i <= p < s.len() implies match_len_at(s, cat, p) == 0 by {
                    if p > i {
                        assert(no_match_between(s, cat, i + 1, s.len() as int));
                    }
                }
            } else {
                assert forall|p: int| i <= p < spans[0].0 implies match_len_at(s, cat, p) == 0 by {
                    if p > i {
                        assert(no_match_between(s, cat, i + 1, spans[0].0));
                    }
                }
            }
        }
    }
}

/// The views of a span vector.
pub open spec fn spans_view(s: Seq<(usize, usize)>) -> Seq<(int, int)> {
    Seq::new(s.len(), |i: int| (s[i].0 as int, s[i].1 as int))
}

/// The category's pattern prefix, as executable bytes.
pub fn prefix_vec(cat: Category) -> (r: Vec<u8>)
    ensures
        r@ == prefix_of(cat),
{
    let mut v: Vec<u8> = Vec::new();
    match cat {
        Category::Field => {
            v.push(102u8);
            v.push(105u8);
            v.push(101u8);
            v.push(108u8);
            v.push(100u8);
            v.push(95u8);
        },
        Category::Method => {
            v.push(102u8);
            v.push(117u8);
            v.push(110u8);
            v.push(99u8);
            v.push(95u8);
        },
        Category::Param => {
            v.push(112u8);
            v.push(95u8);
        },
    }
    proof {
        assert(v@ =~= prefix_of(cat));
    }
    v
}

/// The maximal digit run starting at `i`, as executable code.
fn digit_run_exec(s: &Vec<u8>, i: usize) -> (r: usize)
    requires
        i <= s@.len(),
    ensures
        r == digit_run(s@, i as int),
        i + r <= s@.len(),
{
    proof {
        lemma_digit_run_bound(s@, i as int);
    }
    let mut j: usize = i;
    while j < s.len() && s[j] >= 48u8 && s[j] <= 57u8
        invariant
            i <= j <= s@.len(),
            digit_run(s@, i as int) == j - i + digit_run(s@, j as int),
        decreases s.len() - j,
    {
        j += 1;
    }
    j - i
}

/// The maximal letter run starting at `i`, as executable code.
fn alpha_run_exec(s: &Vec<u8>, i: usize) -> (r: usize)
    requires
        i <= s@.len(),
    ensures
        r == alpha_run(s@, i as int),
        i + r <= s@.len(),
{
    proof {
        lemma_alpha_run_bound(s@, i as int);
    }
    let mut j: usize = i;
    while j < s.len() && ((s[j] >= 65u8 && s[j] <= 90u8) || (s[j] >= 97u8 && s[j] <= 122u8))
        invariant
            i <= j <= s@.len(),
            alpha_run(s@, i as int) == j - i + alpha_run(s@, j as int),
        decreases s.len() - j,
    {
        j += 1;
    }
    j - i
}

/// The pattern match length at position `i`, or 0, as executable code.
/// `prefix` must hold the category's pattern prefix.
fn match_len_exec(s: &Vec<u8>, cat: Category, i: usize, prefix: &Vec<u8>) -> (r: usize)
    requires
        i <= s@.len(),
        prefix@ == prefix_of(cat),
    ensures
        r == match_len_at(s@, cat, i as int),
        i + r <= s@.len(),
{
    proof {
        lemma_match_len_bound(s@, cat, i as int);
    }
    if prefix.len() > s.len() - i {
        return 0;
    }
    if !occurs_at_exec(s, prefix, i) {
        return 0;
    }
    let j = i + prefix.len();
    match cat {
        Category::Field | Category::Method => {
            let d = digit_run_exec(s, j);
            let a = alpha_run_exec(s, j + d);
            if d >= 1 && a >= 1 {
                if j + d + a < s.len() && s[j + d + a] == 95u8 {
                    prefix.len() + d + a + 1
                } else {
                    prefix.len() + d + a
                }
            } else {
                0
            }
        },
        Category::Param => {
            let d1 = digit_run_exec(s, j);
            if d1 >= 1 && j + d1 < s.len() && s[j + d1] == 95u8 {
                let d2 = digit_run_exec(s, j + d1 + 1);
                if d2 >= 1 && j + d1 + 1 + d2 < s.len() && s[j + d1 + 1 + d2] == 95u8 {
                    prefix.len() + d1 + 1 + d2 + 1
                } else {
                    0
                }
            } else {
                0
            }
        },
    }
}

/// All matches of the category's pattern in `s`, leftmost first, as
/// half-open index spans.
pub fn find_tokens(s: &Vec<u8>, cat: Category) -> (r: Vec<(usize, usize)>)
    ensures
        spans_view(r@) == token_spans(s@, cat),
{
    let prefix = prefix_vec(cat);
    let mut out: Vec<(usize, usize)> = Vec::new();
    let mut i: usize = 0;
    while i < s.len()
        invariant
            i <= s@.len(),
            prefix@ == prefix_of(cat),
            spans_view(out@) + token_spans_from(s@, cat, i as int) == token_spans(s@, cat),
        decreases s.len() - i,
    {
        let l = match_len_exec(s, cat, i, &prefix);
        let ghost prev = spans_view(out@);
        if l > 0 {
            out.push((i, i + l));
            proof {
                assert(spans_view(out@) =~= prev + seq![(i as int, i + l)]);
                assert(spans_view(out@) + token_spans_from(s@, cat, i + l) =~= token_spans(
                    s@,
                    cat,
                ));
            }
            i = i + l;
        } else {
            proof {
                assert(spans_view(out@) + token_spans_from(s@, cat, i + 1) =~= token_spans(
                    s@,
                    cat,
                ));
            }
            i = i + 1;
        }
    }
    proof {
        assert(spans_view(out@) =~= token_spans(s@, cat));
    }
    out
}

} // verus!
