//! Byte spans of the input, as the matchers hand them out.

use vstd::prelude::*;

verus! {

/// Half-open byte spans as pairs of mathematical integers.
pub open spec fn spans_view(spans: Seq<(usize, usize)>) -> Seq<(int, int)> {
    Seq::new(spans.len(), |k: int| (spans[k].0 as int, spans[k].1 as int))
}

/// Appending a span to the executable list appends it to the view.
pub proof fn lemma_spans_view_push(spans: Seq<(usize, usize)>, span: (usize, usize))
    ensures
        spans_view(spans.push(span)) == spans_view(spans).push((span.0 as int, span.1 as int)),
{
    assert(spans_view(spans.push(span)) =~= spans_view(spans).push(
        (span.0 as int, span.1 as int),
    ));
}

} // verus!
