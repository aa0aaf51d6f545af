//! What both strategies share once their matchers have run: spans become
//! candidates, candidates are sorted and reconciled, and the survivors are
//! assembled into tokens.

use vstd::prelude::*;
use vstd::string::StringSliceAdditionalSpecFns;
use vstd::utf8::encode_utf8_valid_utf8;
use crate::assembler::{
    assemble, contiguous, cut_at_characters, entity_segment, fits, layout,
    lemma_contiguous_is_disjoint, lemma_layout_is_contiguous, lemma_layout_members,
    lemma_layout_plain_apart, none_plain, plain_apart, spelled, tokens_of, Segment,
};
use crate::geo::geodb::GeoDB;
use crate::resolver::{
    all_nonempty, chained, lemma_resolve_is_chained, lemma_sort_by_start, lemma_top_rank_survives,
    overlapping, resolve, resolve_overlaps, sort_by_start, sort_candidates, spans_overlap,
    top_ranked_apart, Candidate,
};
use crate::span::spans_view;
use crate::text::is_cut;
use crate::token::TokenKind;
use crate::NaliText;

verus! {

/// The spans as candidates of one kind.
pub open spec fn tagged(spans: Seq<(int, int)>, kind: TokenKind) -> Seq<Candidate> {
    Seq::new(
        spans.len(),
        |k: int| Candidate { start: spans[k].0 as usize, end: spans[k].1 as usize, kind },
    )
}

/// Every span is non-empty, lies within the text and begins and ends between
/// two characters.
pub open spec fn spans_fit(bytes: Seq<u8>, spans: Seq<(int, int)>) -> bool {
    forall|k: int|
        0 <= k < spans.len() ==> {
            &&& 0 <= (#[trigger] spans[k]).0 < spans[k].1 <= bytes.len()
            &&& is_cut(bytes, spans[k].0)
            &&& is_cut(bytes, spans[k].1)
        }
}

/// Candidates made of spans that fit are non-empty and fit.
pub proof fn lemma_tagged_fit(bytes: Seq<u8>, spans: Seq<(int, int)>, kind: TokenKind)
    requires
        spans_fit(bytes, spans),
        bytes.len() <= usize::MAX,
    ensures
        all_nonempty(tagged(spans, kind)),
        fits(bytes, tagged(spans, kind)),
{
    let out = tagged(spans, kind);
    assert forall|k: int| 0 <= k < out.len() implies (#[trigger] out[k]).start < out[k].end
        && is_cut(bytes, out[k].start as int) && is_cut(bytes, out[k].end as int) by {
        assert(0 <= spans[k].0 < spans[k].1 <= bytes.len());
    }
}

/// Whatever survives sorting and the sweep, of candidates that are non-empty
/// and fit, is chained and fits.
pub proof fn lemma_accepted_fit(bytes: Seq<u8>, candidates: Seq<Candidate>)
    requires
        all_nonempty(candidates),
        fits(bytes, candidates),
    ensures
        chained(resolve(sort_by_start(candidates))),
        fits(bytes, resolve(sort_by_start(candidates))),
{
    let sorted = sort_by_start(candidates);
    lemma_sort_by_start(candidates);
    assert forall|k: int| 0 <= k < sorted.len() implies (#[trigger] sorted[k]).start < sorted[k].end
        && is_cut(bytes, sorted[k].start as int) && is_cut(bytes, sorted[k].end as int) by {
        assert(candidates.contains(sorted[k]));
        let w = choose|w: int| 0 <= w < candidates.len() && candidates[w] == sorted[k];
        assert(candidates[w].start < candidates[w].end);
    }
    lemma_resolve_is_chained(sorted);
    let accepted = resolve(sorted);
    assert forall|k: int| 0 <= k < accepted.len() implies is_cut(
        bytes,
        (#[trigger] accepted[k]).start as int,
    ) && is_cut(bytes, accepted[k].end as int) by {
        assert(sorted.contains(accepted[k]));
        let w = choose|w: int| 0 <= w < sorted.len() && sorted[w] == accepted[k];
        assert(is_cut(bytes, sorted[w].start as int));
    }
}

/// Precedence, as the segments show it: every IPv4 candidate is a segment,
/// and every segment is plain text or a candidate, whole. So an IPv4 candidate
/// is never dropped, and what overlapped it is dropped whole, not cut short.
pub open spec fn precedence_kept(candidates: Seq<Candidate>, segments: Seq<Segment>) -> bool {
    &&& forall|c: Candidate|
        candidates.contains(c) && c.kind == TokenKind::IPv4 ==> segments.contains(
            #[trigger] entity_segment(c),
        )
    &&& forall|i: int|
        0 <= i < segments.len() ==> (#[trigger] segments[i]).kind == TokenKind::Plain || exists|
            c: Candidate,
        |
            candidates.contains(c) && segments[i] == #[trigger] entity_segment(c)
}

/// Candidates that come one after the other, none reaching into a later one.
pub open spec fn in_turn(candidates: Seq<Candidate>) -> bool {
    forall|j: int, k: int|
        0 <= j < k < candidates.len() ==> (#[trigger] candidates[j]).end <= (
        #[trigger] candidates[k]).start
}

/// IPv4 candidates that come one after the other keep clear of each other,
/// whatever candidates of other kinds stand beside them.
pub proof fn lemma_in_turn_is_apart(top: Seq<Candidate>, rest: Seq<Candidate>)
    requires
        in_turn(top),
        forall|k: int| 0 <= k < rest.len() ==> (#[trigger] rest[k]).kind != TokenKind::IPv4,
    ensures
        top_ranked_apart(top + rest),
{
    let all = top + rest;
    assert forall|p: int, q: int|
        0 <= p < all.len() && 0 <= q < all.len() && (#[trigger] all[p]).kind == TokenKind::IPv4 && (
        #[trigger] all[q]).kind == TokenKind::IPv4 && all[p] != all[q] implies !overlapping(
        all[p],
        all[q],
    ) by {
        if p >= top.len() {
            assert(all[p] == rest[p - top.len()]);
        }
        if q >= top.len() {
            assert(all[q] == rest[q - top.len()]);
        }
        assert(all[p] == top[p] && all[q] == top[q]);
        if p < q {
            assert(top[p].end <= top[q].start);
        } else if q < p {
            assert(top[q].end <= top[p].start);
        }
    }
}

/// Precedence holds of the segments made of candidates whose IPv4 candidates
/// keep clear of each other.
pub proof fn lemma_precedence_kept(candidates: Seq<Candidate>, len: int)
    requires
        all_nonempty(candidates),
        top_ranked_apart(candidates),
    ensures
        precedence_kept(candidates, layout(resolve(sort_by_start(candidates)), len)),
{
    let sorted = sort_by_start(candidates);
    let accepted = resolve(sorted);
    let segments = layout(accepted, len);
    lemma_top_rank_survives(candidates);
    lemma_layout_members(accepted, len);
    lemma_sort_by_start(candidates);
    assert forall|k: int| 0 <= k < sorted.len() implies (#[trigger] sorted[k]).start
        < sorted[k].end by {
        assert(candidates.contains(sorted[k]));
        let w = choose|w: int| 0 <= w < candidates.len() && candidates[w] == sorted[k];
        assert(candidates[w].start < candidates[w].end);
    }
    lemma_resolve_is_chained(sorted);
    assert forall|c: Candidate|
        candidates.contains(c) && c.kind == TokenKind::IPv4 implies segments.contains(
        #[trigger] entity_segment(c),
    ) by {
        assert(resolve(sort_by_start(candidates)).contains(c));
        let k = choose|k: int| 0 <= k < accepted.len() && accepted[k] == c;
        assert(segments.contains(entity_segment(accepted[k])));
    }
    assert forall|i: int| 0 <= i < segments.len() implies (#[trigger] segments[i]).kind
        == TokenKind::Plain || exists|c: Candidate|
        candidates.contains(c) && segments[i] == #[trigger] entity_segment(c) by {
        if segments[i].kind != TokenKind::Plain {
            let k = choose|k: int|
                0 <= k < accepted.len() && segments[i] == entity_segment(#[trigger] accepted[k]);
            assert(sorted.contains(accepted[k]));
            let w = choose|w: int| 0 <= w < sorted.len() && sorted[w] == accepted[k];
            assert(candidates.contains(sorted[w]));
            assert(segments[i] == entity_segment(accepted[k]));
        }
    }
}

/// Where precedence holds of segments that cover the text, a segment of
/// another kind overlaps no IPv4 candidate.
pub proof fn lemma_other_segments_clear_of_top(
    candidates: Seq<Candidate>,
    segments: Seq<Segment>,
    len: int,
    i: int,
    top: Candidate,
)
    requires
        contiguous(segments, len),
        precedence_kept(candidates, segments),
        0 <= i < segments.len(),
        segments[i].kind != TokenKind::IPv4,
        candidates.contains(top),
        top.kind == TokenKind::IPv4,
    ensures
        !spans_overlap(segments[i].start, segments[i].end, top.start as int, top.end as int),
{
    assert(segments.contains(entity_segment(top)));
    let m = choose|m: int| 0 <= m < segments.len() && segments[m] == entity_segment(top);
    if i < m {
        lemma_contiguous_is_disjoint(segments, len, i, m);
    } else {
        lemma_contiguous_is_disjoint(segments, len, m, i);
    }
}

/// Of candidates none of which is plain, the segments hold no plain segment
/// right behind another.
pub proof fn lemma_plain_apart(candidates: Seq<Candidate>, len: int)
    requires
        all_nonempty(candidates),
        none_plain(candidates),
    ensures
        plain_apart(layout(resolve(sort_by_start(candidates)), len)),
{
    let sorted = sort_by_start(candidates);
    let accepted = resolve(sorted);
    lemma_sort_by_start(candidates);
    assert forall|k: int| 0 <= k < sorted.len() implies (#[trigger] sorted[k]).start
        < sorted[k].end by {
        assert(candidates.contains(sorted[k]));
        let w = choose|w: int| 0 <= w < candidates.len() && candidates[w] == sorted[k];
        assert(candidates[w].start < candidates[w].end);
    }
    lemma_resolve_is_chained(sorted);
    assert forall|k: int| 0 <= k < accepted.len() implies (#[trigger] accepted[k]).kind
        != TokenKind::Plain by {
        assert(sorted.contains(accepted[k]));
        let w = choose|w: int| 0 <= w < sorted.len() && sorted[w] == accepted[k];
        assert(candidates.contains(sorted[w]));
        let v = choose|v: int| 0 <= v < candidates.len() && candidates[v] == sorted[w];
        assert(candidates[v].kind != TokenKind::Plain);
    }
    lemma_layout_plain_apart(accepted, len);
}

/// Appends to `candidates` one candidate of the given kind for each span.
pub fn tag_spans(candidates: &mut Vec<Candidate>, spans: &Vec<(usize, usize)>, kind: TokenKind)
    ensures
        final(candidates)@ == old(candidates)@ + tagged(spans_view(spans@), kind),
{
    let mut k: usize = 0;
    assert(candidates@ =~= old(candidates)@ + tagged(spans_view(spans@), kind).take(0));
    while k < spans.len()
        invariant
            k <= spans@.len(),
            candidates@ == old(candidates)@ + tagged(spans_view(spans@), kind).take(k as int),
        decreases spans@.len() - k,
    {
        let (start, end) = spans[k];
        candidates.push(Candidate { start, end, kind });
        k += 1;
        assert(candidates@ =~= old(candidates)@ + tagged(spans_view(spans@), kind).take(k as int));
    }
    assert(tagged(spans_view(spans@), kind).take(k as int) =~= tagged(spans_view(spans@), kind));
}

/// The tokens for `input`, given every candidate that was found in it: the
/// candidates are sorted by start and reconciled, and plain text fills what the
/// survivors leave. The tokens cover the input without a gap and spell it.
pub fn tokens_from_candidates<G: GeoDB>(input: &str, candidates: &Vec<Candidate>, db: &G) -> (text:
    NaliText)
    requires
        all_nonempty(candidates@),
        fits(input.spec_bytes(), candidates@),
    ensures
        text@ == tokens_of(
            input.spec_bytes(),
            layout(resolve(sort_by_start(candidates@)), input.spec_bytes().len() as int),
            db,
        ),
        contiguous(
            layout(resolve(sort_by_start(candidates@)), input.spec_bytes().len() as int),
            input.spec_bytes().len() as int,
        ),
        cut_at_characters(
            input.spec_bytes(),
            layout(resolve(sort_by_start(candidates@)), input.spec_bytes().len() as int),
        ),
        top_ranked_apart(candidates@) ==> precedence_kept(
            candidates@,
            layout(resolve(sort_by_start(candidates@)), input.spec_bytes().len() as int),
        ),
        none_plain(candidates@) ==> plain_apart(
            layout(resolve(sort_by_start(candidates@)), input.spec_bytes().len() as int),
        ),
        spelled(text@) == input@,
{
    let sorted = sort_candidates(candidates);
    let filtered_matches = resolve_overlaps(&sorted);
    proof {
        encode_utf8_valid_utf8(input@);
        lemma_accepted_fit(input.spec_bytes(), candidates@);
        lemma_layout_is_contiguous(input.spec_bytes(), filtered_matches@);
        if top_ranked_apart(candidates@) {
            lemma_precedence_kept(candidates@, input.spec_bytes().len() as int);
        }
        if none_plain(candidates@) {
            lemma_plain_apart(candidates@, input.spec_bytes().len() as int);
        }
    }
    NaliText::new(assemble(input, &filtered_matches, db))
}

} // verus!
