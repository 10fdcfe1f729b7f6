//! The substitution engine: given a buffer, an ordered match-span list and
//! a mapping, rebuild the buffer with every matched token that the mapping
//! knows replaced by its name, and every other byte copied verbatim.

use vstd::prelude::*;
use crate::mapping::{Mapping, MappingSet, MappingSetView};
use crate::tokenizer::{
    Category, token_spans, wf_spans, spans_view, find_tokens, lemma_token_spans_wf,
};
use crate::bytes::{extend_range, extend_bytes};

verus! {

/// What a matched token becomes: its mapped name when the mapping has the
/// token, the token itself otherwise.
pub open spec fn replacement(tok: Seq<u8>, m: Map<Seq<u8>, Seq<u8>>) -> Seq<u8> {
    if m.contains_key(tok) {
        m[tok]
    } else {
        tok
    }
}

/// The rebuilt buffer from position `from` on: for each span in order, the
/// verbatim gap before it, then the replacement of the matched text; after
/// the last span, the verbatim remainder.
pub open spec fn apply_spans(
    s: Seq<u8>,
    spans: Seq<(int, int)>,
    m: Map<Seq<u8>, Seq<u8>>,
    from: int,
) -> Seq<u8>
    decreases spans.len(),
{
    if spans.len() == 0 {
        s.subrange(from, s.len() as int)
    } else {
        s.subrange(from, spans[0].0) + replacement(s.subrange(spans[0].0, spans[0].1), m)
            + apply_spans(s, spans.drop_first(), m, spans[0].1)
    }
}

/// One category pass over a buffer: the pattern's matches found and
/// substituted, everything else copied verbatim.
pub open spec fn remap_category(s: Seq<u8>, cat: Category, m: Map<Seq<u8>, Seq<u8>>) -> Seq<u8> {
    apply_spans(s, token_spans(s, cat), m, 0)
}

/// The full three-pass pipeline over a text buffer: fields, then methods,
/// then parameters, each pass re-tokenizing the buffer the previous pass
/// produced.
pub open spec fn remap_text(s: Seq<u8>, ms: MappingSetView) -> Seq<u8> {
    remap_category(
        remap_category(remap_category(s, Category::Field, ms.fields), Category::Method, ms.methods),
        Category::Param,
        ms.params,
    )
}

pub proof fn lemma_apply_spans_unmapped(
    s: Seq<u8>,
    spans: Seq<(int, int)>,
    m: Map<Seq<u8>, Seq<u8>>,
    from: int,
)
    requires
        0 <= from <= s.len(),
        wf_spans(spans, from, s.len() as int),
        forall|j: int|
            0 <= j < spans.len() ==> !m.contains_key(
                #[trigger] s.subrange(spans[j].0, spans[j].1),
            ),
    ensures
        apply_spans(s, spans, m, from) == s.subrange(from, s.len() as int),
    decreases spans.len(),
{
    if spans.len() > 0 {
        let b = spans[0].1;
        assert(!m.contains_key(s.subrange(spans[0].0, spans[0].1)));
        assert forall|j: int| 0 <= j < spans.drop_first().len() implies !m.contains_key(
            #[trigger] s.subrange(spans.drop_first()[j].0, spans.drop_first()[j].1),
        ) by {
            assert(spans.drop_first()[j] == spans[j + 1]);
        }
        lemma_apply_spans_unmapped(s, spans.drop_first(), m, b);
        assert(apply_spans(s, spans, m, from) =~= s.subrange(from, s.len() as int));
    }
}

/// Law: a category pass whose matched tokens are all absent from the
/// mapping returns the buffer byte-identical.
pub proof fn lemma_unmapped_passthrough(s: Seq<u8>, cat: Category, m: Map<Seq<u8>, Seq<u8>>)
    requires
        forall|j: int|
            0 <= j < token_spans(s, cat).len() ==> !m.contains_key(
                #[trigger] s.subrange(token_spans(s, cat)[j].0, token_spans(s, cat)[j].1),
            ),
    ensures
        remap_category(s, cat, m) == s,
{
    lemma_token_spans_wf(s, cat, 0);
    lemma_apply_spans_unmapped(s, token_spans(s, cat), m, 0);
    assert(s.subrange(0, s.len() as int) =~= s);
}

/// Law: with three empty mappings the whole pipeline returns any buffer
/// byte-identical.
pub proof fn lemma_noop_mapping(s: Seq<u8>, ms: MappingSetView)
    requires
        ms.fields == Map::<Seq<u8>, Seq<u8>>::empty(),
        ms.methods == Map::<Seq<u8>, Seq<u8>>::empty(),
        ms.params == Map::<Seq<u8>, Seq<u8>>::empty(),
    ensures
        remap_text(s, ms) == s,
{
    lemma_unmapped_passthrough(s, Category::Field, ms.fields);
    lemma_unmapped_passthrough(s, Category::Method, ms.methods);
    lemma_unmapped_passthrough(s, Category::Param, ms.params);
}

/// Law: a buffer in which no category's pattern matches any further is a
/// fixed point of the pipeline; in particular, when one application leaves
/// no further matches, applying the pipeline twice gives the same buffer
/// as applying it once.
pub proof fn lemma_idempotent_when_stable(s: Seq<u8>, ms: MappingSetView)
    requires
        token_spans(remap_text(s, ms), Category::Field).len() == 0,
        token_spans(remap_text(s, ms), Category::Method).len() == 0,
        token_spans(remap_text(s, ms), Category::Param).len() == 0,
    ensures
        remap_text(remap_text(s, ms), ms) == remap_text(s, ms),
{
    let b = remap_text(s, ms);
    assert(remap_category(b, Category::Field, ms.fields) =~= b);
    assert(remap_category(b, Category::Method, ms.methods) =~= b);
    assert(remap_category(b, Category::Param, ms.params) =~= b);
}

/// Rebuild the buffer over one span list, as executable code.
pub fn apply_spans_exec(s: &Vec<u8>, spans: &Vec<(usize, usize)>, m: &Mapping) -> (out: Vec<u8>)
    requires
        wf_spans(spans_view(spans@), 0, s@.len() as int),
    ensures
        out@ == apply_spans(s@, spans_view(spans@), m@, 0),
{
    let mut out: Vec<u8> = Vec::new();
    let mut prev: usize = 0;
    let mut k: usize = 0;
    proof {
        assert(spans_view(spans@).skip(0) =~= spans_view(spans@));
        assert(out@ + apply_spans(s@, spans_view(spans@), m@, 0) =~= apply_spans(
            s@,
            spans_view(spans@),
            m@,
            0,
        ));
    }
    while k < spans.len()
        invariant
            k <= spans@.len(),
            prev <= s@.len(),
            wf_spans(spans_view(spans@).skip(k as int), prev as int, s@.len() as int),
            apply_spans(s@, spans_view(spans@), m@, 0) == out@ + apply_spans(
                s@,
                spans_view(spans@).skip(k as int),
                m@,
                prev as int,
            ),
        decreases spans.len() - k,
    {
        let (a, b) = spans[k];
        proof {
            assert(spans_view(spans@).skip(k as int)[0] == (a as int, b as int));
        }
        extend_range(&mut out, s, prev, a);
        let mut tok: Vec<u8> = Vec::new();
        extend_range(&mut tok, s, a, b);
        match m.get(&tok) {
            Some(name) => {
                extend_bytes(&mut out, name);
            },
            None => {
                extend_bytes(&mut out, &tok);
            },
        }
        proof {
            assert(spans_view(spans@).skip(k as int).drop_first() =~= spans_view(spans@).skip(
                k + 1,
            ));
        }
        prev = b;
        k += 1;
    }
    proof {
        assert(spans_view(spans@).skip(spans@.len() as int) =~= Seq::<(int, int)>::empty());
    }
    extend_range(&mut out, s, prev, s.len());
    out
}

/// One category pass over a buffer, as executable code.
pub fn remap_category_exec(s: &Vec<u8>, cat: Category, m: &Mapping) -> (out: Vec<u8>)
    ensures
        out@ == remap_category(s@, cat, m@),
{
    let spans = find_tokens(s, cat);
    proof {
        lemma_token_spans_wf(s@, cat, 0);
    }
    apply_spans_exec(s, &spans, m)
}

/// The full three-pass pipeline over a text buffer, as executable code:
/// fields, then methods, then parameters.
pub fn remap_text_exec(s: &Vec<u8>, ms: &MappingSet) -> (out: Vec<u8>)
    ensures
        out@ == remap_text(s@, ms@),
{
    let pass1 = remap_category_exec(s, Category::Field, &ms.fields);
    let pass2 = remap_category_exec(&pass1, Category::Method, &ms.methods);
    remap_category_exec(&pass2, Category::Param, &ms.params)
}

} // verus!
