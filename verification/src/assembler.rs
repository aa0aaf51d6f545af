//! From accepted candidates to the token sequence: the candidates' own tokens,
//! with plain text filling whatever lies before, between and after them.

use vstd::prelude::*;
use vstd::string::StringExecFns;
use vstd::string::StringSliceAdditionalSpecFns;
use vstd::utf8::{encode_utf8, encode_utf8_valid_utf8, valid_utf8};
use crate::geo::geodb::GeoDB;
use crate::resolver::{chained, Candidate};
use crate::text::{
    is_cut, lemma_ends_are_cuts, lemma_piece_concat, lemma_piece_empty, piece, text_between,
};
use crate::token::{token_of, Token, TokenKind, TokenView};

verus! {

/// A stretch of the input and what it was recognised as.
pub struct Segment {
    pub start: int,
    pub end: int,
    pub kind: TokenKind,
}

pub open spec fn plain_segment(start: int, end: int) -> Segment {
    Segment { start, end, kind: TokenKind::Plain }
}

pub open spec fn entity_segment(c: Candidate) -> Segment {
    Segment { start: c.start as int, end: c.end as int, kind: c.kind }
}

/// How far the first `k` accepted candidates reach.
pub open spec fn covered(accepted: Seq<Candidate>, k: int) -> int {
    if k <= 0 {
        0
    } else {
        accepted[k - 1].end as int
    }
}

/// The segments up to the end of the `k`-th accepted candidate: each candidate,
/// preceded by a plain segment where it does not begin at the end of what came
/// before.
pub open spec fn layout_upto(accepted: Seq<Candidate>, k: int) -> Seq<Segment>
    decreases k,
{
    if k <= 0 {
        Seq::empty()
    } else {
        let c = accepted[k - 1];
        let before = layout_upto(accepted, k - 1);
        let reached = covered(accepted, k - 1);
        if c.start > reached {
            before.push(plain_segment(reached, c.start as int)).push(entity_segment(c))
        } else {
            before.push(entity_segment(c))
        }
    }
}

/// The segments of an input of `len` bytes: those of the accepted candidates,
/// then a plain segment for what is left behind the last one.
pub open spec fn layout(accepted: Seq<Candidate>, len: int) -> Seq<Segment> {
    let body = layout_upto(accepted, accepted.len() as int);
    let reached = covered(accepted, accepted.len() as int);
    if reached < len {
        body.push(plain_segment(reached, len))
    } else {
        body
    }
}

/// The tokens are those of the segments, one for one: each token is of its
/// segment's kind and holds its segment's text. This says everything of a
/// token but the location that an address carries.
pub open spec fn depicts(tokens: Seq<TokenView>, bytes: Seq<u8>, segments: Seq<Segment>) -> bool {
    &&& tokens.len() == segments.len()
    &&& forall|k: int|
        0 <= k < tokens.len() ==> (#[trigger] tokens[k]).kind() == segments[k].kind && tokens[k].text()
            == piece(bytes, segments[k].start, segments[k].end)
}

/// The token for a segment: of the segment's kind, with the segment's text
/// and, where it is an address, what the database answers for that text.
pub open spec fn segment_token<G: GeoDB>(bytes: Seq<u8>, segment: Segment, db: &G) -> TokenView {
    let text = piece(bytes, segment.start, segment.end);
    token_of(segment.kind, text, db.located(text))
}

/// The tokens for the segments, one for one.
pub open spec fn tokens_of<G: GeoDB>(bytes: Seq<u8>, segments: Seq<Segment>, db: &G) -> Seq<
    TokenView,
> {
    Seq::new(segments.len(), |k: int| segment_token(bytes, segments[k], db))
}

/// The tokens for segments depict them.
pub proof fn lemma_tokens_of_depict<G: GeoDB>(bytes: Seq<u8>, segments: Seq<Segment>, db: &G)
    ensures
        depicts(tokens_of(bytes, segments, db), bytes, segments),
{
}

/// The contents of a list of tokens.
pub open spec fn tokens_view(tokens: Seq<Token>) -> Seq<TokenView> {
    Seq::new(tokens.len(), |k: int| tokens[k]@)
}

/// The texts of the tokens, one after the other.
pub open spec fn spelled(tokens: Seq<TokenView>) -> Seq<char>
    decreases tokens.len(),
{
    if tokens.len() == 0 {
        Seq::empty()
    } else {
        spelled(tokens.drop_last()) + tokens.last().text()
    }
}

/// The segments cover `[0, len)` from left to right: the first begins at 0, each
/// begins where the one before it ends, the last ends at `len`, and none is
/// empty.
pub open spec fn contiguous(segments: Seq<Segment>, len: int) -> bool {
    &&& segments.len() == 0 ==> len == 0
    &&& segments.len() > 0 ==> segments[0].start == 0 && segments.last().end == len
    &&& forall|k: int| 0 <= k < segments.len() ==> (#[trigger] segments[k]).start < segments[k].end
    &&& forall|j: int, k: int|
        0 <= j && k == j + 1 && k < segments.len() ==> (#[trigger] segments[j]).end == (
        #[trigger] segments[k]).start
}

/// Every segment begins and ends between two characters.
pub open spec fn cut_at_characters(bytes: Seq<u8>, segments: Seq<Segment>) -> bool {
    forall|k: int|
        0 <= k < segments.len() ==> is_cut(bytes, (#[trigger] segments[k]).start) && is_cut(
            bytes,
            segments[k].end,
        )
}

/// The candidates lie within the text and begin and end between two
/// characters.
pub open spec fn fits(bytes: Seq<u8>, candidates: Seq<Candidate>) -> bool {
    forall|k: int|
        0 <= k < candidates.len() ==> is_cut(bytes, (#[trigger] candidates[k]).start as int)
            && is_cut(bytes, candidates[k].end as int)
}

/// One more segment, begun where the others end, keeps the cover.
proof fn lemma_push_segment(bytes: Seq<u8>, segments: Seq<Segment>, segment: Segment)
    requires
        contiguous(segments, segment.start),
        cut_at_characters(bytes, segments),
        0 <= segment.start < segment.end,
        is_cut(bytes, segment.start),
        is_cut(bytes, segment.end),
    ensures
        contiguous(segments.push(segment), segment.end),
        cut_at_characters(bytes, segments.push(segment)),
{
    let out = segments.push(segment);
    assert forall|j: int, i: int| 0 <= j && i == j + 1 && i < out.len() implies (
    #[trigger] out[j]).end == (#[trigger] out[i]).start by {
        if i < segments.len() {
            assert(out[j] == segments[j] && out[i] == segments[i]);
        } else {
            assert(out[j] == segments.last());
        }
    }
    assert forall|i: int| 0 <= i < out.len() implies is_cut(bytes, (#[trigger] out[i]).start)
        && is_cut(bytes, out[i].end) && out[i].start < out[i].end by {
        if i < segments.len() {
            assert(out[i] == segments[i]);
        }
    }
    if segments.len() > 0 {
        assert(out[0] == segments[0]);
    }
}

/// What holds of the segments up to the `k`-th accepted candidate.
proof fn lemma_layout_upto(bytes: Seq<u8>, accepted: Seq<Candidate>, k: int)
    requires
        chained(accepted),
        fits(bytes, accepted),
        valid_utf8(bytes),
        0 <= k <= accepted.len(),
    ensures
        contiguous(layout_upto(accepted, k), covered(accepted, k)),
        cut_at_characters(bytes, layout_upto(accepted, k)),
        0 <= covered(accepted, k) <= bytes.len(),
        is_cut(bytes, covered(accepted, k)),
    decreases k,
{
    lemma_ends_are_cuts(bytes);
    if k > 0 {
        lemma_layout_upto(bytes, accepted, k - 1);
        let c = accepted[k - 1];
        let before = layout_upto(accepted, k - 1);
        let reached = covered(accepted, k - 1);
        if k > 1 {
            assert(accepted[k - 2].end <= accepted[k - 1].start);
        }
        if c.start > reached {
            let gap = plain_segment(reached, c.start as int);
            lemma_push_segment(bytes, before, gap);
            lemma_push_segment(bytes, before.push(gap), entity_segment(c));
        } else {
            lemma_push_segment(bytes, before, entity_segment(c));
        }
    }
}

/// The segments laid out for chained candidates cover the input without a gap
/// and without covering anything twice, and each is cut between characters.
pub proof fn lemma_layout_is_contiguous(bytes: Seq<u8>, accepted: Seq<Candidate>)
    requires
        chained(accepted),
        fits(bytes, accepted),
        valid_utf8(bytes),
    ensures
        contiguous(layout(accepted, bytes.len() as int), bytes.len() as int),
        cut_at_characters(bytes, layout(accepted, bytes.len() as int)),
{
    let n = accepted.len() as int;
    let len = bytes.len() as int;
    lemma_layout_upto(bytes, accepted, n);
    lemma_ends_are_cuts(bytes);
    let reached = covered(accepted, n);
    if reached < len {
        lemma_push_segment(bytes, layout_upto(accepted, n), plain_segment(reached, len));
    }
}

/// Every segment up to the `m`-th accepted candidate is plain text or one of
/// those candidates, whole; and each of those candidates is a segment.
proof fn lemma_layout_upto_members(accepted: Seq<Candidate>, m: int)
    requires
        0 <= m <= accepted.len(),
    ensures
        forall|i: int|
            0 <= i < layout_upto(accepted, m).len() ==> (#[trigger] layout_upto(accepted, m)[i]).kind
                == TokenKind::Plain || exists|k: int|
                0 <= k < m && layout_upto(accepted, m)[i] == entity_segment(#[trigger] accepted[k]),
        forall|k: int|
            0 <= k < m ==> layout_upto(accepted, m).contains(
                entity_segment(#[trigger] accepted[k]),
            ),
    decreases m,
{
    if m > 0 {
        lemma_layout_upto_members(accepted, m - 1);
        let c = accepted[m - 1];
        let before = layout_upto(accepted, m - 1);
        let reached = covered(accepted, m - 1);
        let out = layout_upto(accepted, m);
        let mid = if c.start > reached {
            before.push(plain_segment(reached, c.start as int))
        } else {
            before
        };
        assert(out == mid.push(entity_segment(c)));
        assert forall|i: int| 0 <= i < out.len() implies (#[trigger] out[i]).kind
            == TokenKind::Plain || exists|k: int|
            0 <= k < m && out[i] == entity_segment(#[trigger] accepted[k]) by {
            if i < before.len() {
                assert(out[i] == before[i]);
                if before[i].kind != TokenKind::Plain {
                    let k = choose|k: int|
                        0 <= k < m - 1 && before[i] == entity_segment(#[trigger] accepted[k]);
                    assert(out[i] == entity_segment(accepted[k]));
                }
            } else if i < mid.len() {
                assert(out[i] == plain_segment(reached, c.start as int));
            } else {
                assert(out[i] == entity_segment(accepted[m - 1]));
            }
        }
        assert forall|k: int| 0 <= k < m implies out.contains(
            entity_segment(#[trigger] accepted[k]),
        ) by {
            if k < m - 1 {
                assert(before.contains(entity_segment(accepted[k])));
                let w = choose|w: int|
                    0 <= w < before.len() && before[w] == entity_segment(accepted[k]);
                assert(out[w] == before[w]);
            } else {
                assert(out[out.len() - 1] == entity_segment(accepted[k]));
            }
        }
    }
}

/// Every segment of the layout is plain text or an accepted candidate, whole:
/// no candidate is cut short. And every accepted candidate is a segment.
pub proof fn lemma_layout_members(accepted: Seq<Candidate>, len: int)
    ensures
        forall|i: int|
            0 <= i < layout(accepted, len).len() ==> (#[trigger] layout(accepted, len)[i]).kind
                == TokenKind::Plain || exists|k: int|
                0 <= k < accepted.len() && layout(accepted, len)[i] == entity_segment(
                    #[trigger] accepted[k],
                ),
        forall|k: int|
            0 <= k < accepted.len() ==> layout(accepted, len).contains(
                entity_segment(#[trigger] accepted[k]),
            ),
{
    let n = accepted.len() as int;
    lemma_layout_upto_members(accepted, n);
    let body = layout_upto(accepted, n);
    let out = layout(accepted, len);
    let reached = covered(accepted, n);
    if reached < len {
        assert(out == body.push(plain_segment(reached, len)));
        assert forall|i: int| 0 <= i < out.len() implies (#[trigger] out[i]).kind
            == TokenKind::Plain || exists|k: int|
            0 <= k < accepted.len() && out[i] == entity_segment(#[trigger] accepted[k]) by {
            if i < body.len() {
                assert(out[i] == body[i]);
                if body[i].kind != TokenKind::Plain {
                    let k = choose|k: int|
                        0 <= k < n && body[i] == entity_segment(#[trigger] accepted[k]);
                    assert(out[i] == entity_segment(accepted[k]));
                }
            }
        }
        assert forall|k: int| 0 <= k < accepted.len() implies out.contains(
            entity_segment(#[trigger] accepted[k]),
        ) by {
            assert(body.contains(entity_segment(accepted[k])));
            let w = choose|w: int| 0 <= w < body.len() && body[w] == entity_segment(accepted[k]);
            assert(out[w] == body[w]);
        }
    }
}

/// No candidate is of the plain kind.
pub open spec fn none_plain(candidates: Seq<Candidate>) -> bool {
    forall|k: int| 0 <= k < candidates.len() ==> (#[trigger] candidates[k]).kind != TokenKind::Plain
}

/// No plain segment is followed by another: plain text between two entities is
/// one segment.
pub open spec fn plain_apart(segments: Seq<Segment>) -> bool {
    forall|j: int, k: int|
        0 <= j && k == j + 1 && k < segments.len() && (#[trigger] segments[j]).kind
            == TokenKind::Plain ==> (#[trigger] segments[k]).kind != TokenKind::Plain
}

proof fn lemma_layout_upto_plain_apart(accepted: Seq<Candidate>, m: int)
    requires
        none_plain(accepted),
        0 <= m <= accepted.len(),
    ensures
        plain_apart(layout_upto(accepted, m)),
        m > 0 ==> layout_upto(accepted, m).len() > 0 && layout_upto(accepted, m).last().kind
            != TokenKind::Plain,
    decreases m,
{
    if m > 0 {
        lemma_layout_upto_plain_apart(accepted, m - 1);
        let c = accepted[m - 1];
        let before = layout_upto(accepted, m - 1);
        let reached = covered(accepted, m - 1);
        let out = layout_upto(accepted, m);
        let mid = if c.start > reached {
            before.push(plain_segment(reached, c.start as int))
        } else {
            before
        };
        assert(out == mid.push(entity_segment(c)));
        assert forall|j: int, k: int|
            0 <= j && k == j + 1 && k < out.len() && (#[trigger] out[j]).kind
                == TokenKind::Plain implies (#[trigger] out[k]).kind != TokenKind::Plain by {
            if k < before.len() {
                assert(out[j] == before[j] && out[k] == before[k]);
            } else if k < mid.len() {
                assert(out[j] == before.last());
            }
        }
    }
}

/// In the layout of candidates none of which is plain, no plain segment is
/// followed by another.
pub proof fn lemma_layout_plain_apart(accepted: Seq<Candidate>, len: int)
    requires
        none_plain(accepted),
    ensures
        plain_apart(layout(accepted, len)),
{
    let n = accepted.len() as int;
    lemma_layout_upto_plain_apart(accepted, n);
    let body = layout_upto(accepted, n);
    let out = layout(accepted, len);
    if covered(accepted, n) < len {
        assert forall|j: int, k: int|
            0 <= j && k == j + 1 && k < out.len() && (#[trigger] out[j]).kind
                == TokenKind::Plain implies (#[trigger] out[k]).kind != TokenKind::Plain by {
            if k < body.len() {
                assert(out[j] == body[j] && out[k] == body[k]);
            } else {
                assert(out[j] == body.last());
            }
        }
    }
}

/// Segments that cover a text without a gap lie one behind the other: an
/// earlier one ends before a later one begins, so no two overlap.
pub proof fn lemma_contiguous_is_disjoint(segments: Seq<Segment>, len: int, j: int, k: int)
    requires
        contiguous(segments, len),
        0 <= j < k < segments.len(),
    ensures
        segments[j].end <= segments[k].start,
        0 <= segments[j].start,
        segments[k].end <= len,
    decreases k - j,
{
    if j + 1 < k {
        lemma_contiguous_is_disjoint(segments, len, j + 1, k);
        assert(segments[j].end == segments[j + 1].start);
    } else {
        assert(segments[j].end == segments[k].start);
    }
    lemma_contiguous_within(segments, len, j);
    lemma_contiguous_within(segments, len, k);
}

/// Every segment of a cover lies within the text.
proof fn lemma_contiguous_within(segments: Seq<Segment>, len: int, k: int)
    requires
        contiguous(segments, len),
        0 <= k < segments.len(),
    ensures
        0 <= segments[k].start < segments[k].end <= len,
{
    lemma_contiguous_from_start(segments, len, k);
    lemma_contiguous_to_end(segments, len, k);
}

proof fn lemma_contiguous_from_start(segments: Seq<Segment>, len: int, k: int)
    requires
        contiguous(segments, len),
        0 <= k < segments.len(),
    ensures
        0 <= segments[k].start < segments[k].end,
    decreases k,
{
    if k > 0 {
        lemma_contiguous_from_start(segments, len, k - 1);
        assert(segments[k - 1].end == segments[k].start);
    }
}

proof fn lemma_contiguous_to_end(segments: Seq<Segment>, len: int, k: int)
    requires
        contiguous(segments, len),
        0 <= k < segments.len(),
    ensures
        segments[k].end <= len,
    decreases segments.len() - k,
{
    if k + 1 < segments.len() {
        lemma_contiguous_to_end(segments, len, k + 1);
        assert(segments[k].end == segments[k + 1].start);
    }
}

/// A candidate that spans the whole text is its only segment: no plain text
/// stands beside it.
pub proof fn lemma_whole_text_candidate(c: Candidate, len: int)
    requires
        c.start == 0,
        c.end == len,
    ensures
        layout(seq![c], len) == seq![entity_segment(c)],
{
    reveal_with_fuel(layout_upto, 2);
    assert(layout(seq![c], len) =~= seq![entity_segment(c)]);
}

/// An empty text has no segments, so no tokens.
pub proof fn lemma_empty_text_has_no_segments(segments: Seq<Segment>)
    requires
        contiguous(segments, 0),
    ensures
        segments.len() == 0,
{
    if segments.len() > 0 {
        lemma_contiguous_within(segments, 0, 0);
    }
}

/// Tokens that depict segments which cover the text without a gap spell the
/// text.
pub proof fn lemma_contiguous_spells(
    tokens: Seq<TokenView>,
    bytes: Seq<u8>,
    segments: Seq<Segment>,
    len: int,
)
    requires
        valid_utf8(bytes),
        0 <= len <= bytes.len(),
        contiguous(segments, len),
        cut_at_characters(bytes, segments),
        depicts(tokens, bytes, segments),
    ensures
        spelled(tokens) == piece(bytes, 0, len),
    decreases segments.len(),
{
    if segments.len() == 0 {
        lemma_piece_empty(bytes, 0);
    } else {
        let head = segments.drop_last();
        let last = segments.last();
        assert(tokens.last().text() == piece(bytes, last.start, last.end));
        lemma_ends_are_cuts(bytes);
        assert forall|k: int| 0 <= k < tokens.drop_last().len() implies (
        #[trigger] tokens.drop_last()[k]).kind() == head[k].kind && tokens.drop_last()[k].text()
            == piece(bytes, head[k].start, head[k].end) by {
            assert(tokens.drop_last()[k] == tokens[k]);
        }
        if head.len() == 0 {
            lemma_contiguous_spells(tokens.drop_last(), bytes, head, 0);
        } else {
            assert(head.last() == segments[segments.len() - 2]);
            assert(head[0] == segments[0]);
            lemma_contiguous_spells(tokens.drop_last(), bytes, head, last.start);
        }
        lemma_piece_concat(bytes, 0, last.start, last.end);
    }
}

/// Round trip: tokens that depict the segments laid out for chained
/// candidates spell the text.
pub proof fn lemma_layout_spells_text(
    tokens: Seq<TokenView>,
    text: Seq<char>,
    accepted: Seq<Candidate>,
)
    requires
        chained(accepted),
        fits(encode_utf8(text), accepted),
        depicts(tokens, encode_utf8(text), layout(accepted, encode_utf8(text).len() as int)),
    ensures
        spelled(tokens) == text,
{
    let bytes = encode_utf8(text);
    encode_utf8_valid_utf8(text);
    lemma_layout_is_contiguous(bytes, accepted);
    lemma_contiguous_spells(tokens, bytes, layout(accepted, bytes.len() as int), bytes.len() as int);
    crate::text::lemma_piece_whole(text);
}

/// The token for the text of `input` between two cuts, of the given kind. An
/// address carries what `db` answers when asked for that text; nothing else is
/// looked up.
pub fn make_token<G: GeoDB>(input: &str, start: usize, end: usize, kind: TokenKind, db: &G) -> (token:
    Token)
    requires
        start <= end,
        is_cut(input.spec_bytes(), start as int),
        is_cut(input.spec_bytes(), end as int),
    ensures
        token@ == segment_token(
            input.spec_bytes(),
            Segment { start: start as int, end: end as int, kind },
            db,
        ),
{
    let part = text_between(input, start, end);
    let geo = match kind {
        TokenKind::IPv4 => db.lookup(part),
        TokenKind::IPv6 => db.lookup(part),
        _ => None,
    };
    Token::of_kind(kind, String::from_str(part), geo)
}

/// The tokens for `input`, given the candidates accepted in it: each
/// candidate's token, and a plain token for every stretch that no candidate
/// covers. Each accepted address is looked up in `db` once.
pub fn assemble<G: GeoDB>(input: &str, accepted: &Vec<Candidate>, db: &G) -> (tokens: Vec<Token>)
    requires
        chained(accepted@),
        fits(input.spec_bytes(), accepted@),
    ensures
        tokens_view(tokens@) == tokens_of(
            input.spec_bytes(),
            layout(accepted@, input.spec_bytes().len() as int),
            db,
        ),
        spelled(tokens_view(tokens@)) == input@,
{
    let ghost bytes = input.spec_bytes();
    let mut tokens: Vec<Token> = Vec::new();
    let mut last_end: usize = 0;
    let mut k: usize = 0;
    proof {
        encode_utf8_valid_utf8(input@);
        assert(tokens_view(tokens@) =~= tokens_of(bytes, layout_upto(accepted@, 0), db));
    }
    while k < accepted.len()
        invariant
            bytes == input.spec_bytes(),
            valid_utf8(bytes),
            chained(accepted@),
            fits(bytes, accepted@),
            k <= accepted@.len(),
            last_end == covered(accepted@, k as int),
            tokens_view(tokens@) == tokens_of(bytes, layout_upto(accepted@, k as int), db),
        decreases accepted@.len() - k,
    {
        let c = accepted[k];
        let ghost before = layout_upto(accepted@, k as int);
        proof {
            lemma_layout_upto(bytes, accepted@, k as int);
            if k > 0 {
                assert(accepted@[k - 1].end <= accepted@[k as int].start);
            }
        }
        if c.start > last_end {
            let ghost prior = tokens_view(tokens@);
            let gap = make_token(input, last_end, c.start, TokenKind::Plain, db);
            tokens.push(gap);
            proof {
                assert(tokens_view(tokens@) =~= prior.push(gap@));
                assert(tokens_view(tokens@) =~= tokens_of(
                    bytes,
                    before.push(plain_segment(last_end as int, c.start as int)),
                    db,
                ));
            }
        }
        let ghost middle = tokens_view(tokens@);
        let token = make_token(input, c.start, c.end, c.kind, db);
        tokens.push(token);
        proof {
            assert(tokens_view(tokens@) =~= middle.push(token@));
            assert(tokens_view(tokens@) =~= tokens_of(
                bytes,
                layout_upto(accepted@, k as int + 1),
                db,
            ));
        }
        last_end = c.end;
        k += 1;
    }

    proof {
        lemma_layout_upto(bytes, accepted@, k as int);
        lemma_ends_are_cuts(bytes);
    }
    let len: usize = input.as_bytes().len();
    if last_end < len {
        let ghost body = tokens_view(tokens@);
        let rest = make_token(input, last_end, len, TokenKind::Plain, db);
        tokens.push(rest);
        proof {
            assert(tokens_view(tokens@) =~= body.push(rest@));
        }
    }
    proof {
        assert(tokens_view(tokens@) =~= tokens_of(
            bytes,
            layout(accepted@, bytes.len() as int),
            db,
        ));
        lemma_tokens_of_depict(bytes, layout(accepted@, bytes.len() as int), db);
        lemma_layout_spells_text(tokens_view(tokens@), input@, accepted@);
    }
    tokens
}

} // verus!
