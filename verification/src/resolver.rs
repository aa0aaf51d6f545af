//! Candidates and the reconciliation of overlapping ones: a stable sort by start
//! offset, then one greedy sweep from the left in which a candidate gives way to
//! any higher-ranked candidate in the run of candidates that overlap it.

use vstd::prelude::*;
use crate::token::TokenKind;

verus! {

/// A span of the input that a matcher recognised as an entity of some kind.
#[derive(Clone, Copy, Debug, PartialEq, Eq, Structural)]
pub struct Candidate {
    pub start: usize,
    pub end: usize,
    pub kind: TokenKind,
}

/// Two half-open spans intersect.
pub open spec fn spans_overlap(start1: int, end1: int, start2: int, end2: int) -> bool {
    start1 < end2 && start2 < end1
}

pub open spec fn overlapping(a: Candidate, b: Candidate) -> bool {
    spans_overlap(a.start as int, a.end as int, b.start as int, b.end as int)
}

/// Of two entities that overlap, the first stays if it ranks higher, or ranks
/// the same and does not start later.
pub open spec fn first_stays(rank1: int, start1: int, rank2: int, start2: int) -> bool {
    rank1 > rank2 || (rank1 == rank2 && start1 <= start2)
}

pub open spec fn keeps_first(a: Candidate, b: Candidate) -> bool {
    first_stays(a.kind.rank(), a.start as int, b.kind.rank(), b.start as int)
}

pub fn is_overlapping(start1: usize, end1: usize, start2: usize, end2: usize) -> (overlap: bool)
    ensures
        overlap == spans_overlap(start1 as int, end1 as int, start2 as int, end2 as int),
{
    start1 < end2 && start2 < end1
}

pub fn should_keep_first(priority1: u8, start1: usize, priority2: u8, start2: usize) -> (keep: bool)
    ensures
        keep == first_stays(priority1 as int, start1 as int, priority2 as int, start2 as int),
{
    if priority1 > priority2 {
        true
    } else if priority1 < priority2 {
        false
    } else {
        start1 <= start2
    }
}

/// `c` put into a list that is ordered by start, behind every candidate that
/// does not start later than it.
pub open spec fn insert_by_start(sorted: Seq<Candidate>, c: Candidate) -> Seq<Candidate>
    decreases sorted.len(),
{
    if sorted.len() == 0 {
        seq![c]
    } else if sorted.last().start <= c.start {
        sorted.push(c)
    } else {
        insert_by_start(sorted.drop_last(), c).push(sorted.last())
    }
}

/// The candidates ordered by start; those that start together keep the order
/// in which they came.
pub open spec fn sort_by_start(candidates: Seq<Candidate>) -> Seq<Candidate>
    decreases candidates.len(),
{
    if candidates.len() == 0 {
        Seq::empty()
    } else {
        insert_by_start(sort_by_start(candidates.drop_last()), candidates.last())
    }
}

pub open spec fn ordered_by_start(candidates: Seq<Candidate>) -> bool {
    forall|j: int, k: int|
        0 <= j < k < candidates.len() ==> (#[trigger] candidates[j]).start <= (
        #[trigger] candidates[k]).start
}

/// Inserting at the place behind the last candidate that does not start later
/// is what `insert_by_start` does.
proof fn lemma_insert_at(sorted: Seq<Candidate>, c: Candidate, pos: int)
    requires
        0 <= pos <= sorted.len(),
        forall|j: int| pos <= j < sorted.len() ==> (#[trigger] sorted[j]).start > c.start,
        pos > 0 ==> sorted[pos - 1].start <= c.start,
    ensures
        insert_by_start(sorted, c) == sorted.insert(pos, c),
    decreases sorted.len() - pos,
{
    if sorted.len() == 0 {
        assert(sorted.insert(pos, c) =~= seq![c]);
    } else if pos == sorted.len() {
        assert(sorted.insert(pos, c) =~= sorted.push(c));
    } else {
        assert(sorted.last() == sorted[sorted.len() - 1]);
        lemma_insert_at(sorted.drop_last(), c, pos);
        assert(sorted.drop_last().insert(pos, c).push(sorted.last()) =~= sorted.insert(pos, c));
    }
}

proof fn lemma_insert_keeps_order(sorted: Seq<Candidate>, c: Candidate)
    requires
        ordered_by_start(sorted),
    ensures
        ordered_by_start(insert_by_start(sorted, c)),
        insert_by_start(sorted, c).len() == sorted.len() + 1,
        insert_by_start(sorted, c).to_multiset() == sorted.to_multiset().insert(c),
        forall|k: int|
            0 <= k < insert_by_start(sorted, c).len() ==> (#[trigger] insert_by_start(sorted, c)[k])
                == c || sorted.contains(insert_by_start(sorted, c)[k]),
    decreases sorted.len(),
{
    broadcast use vstd::seq_lib::group_to_multiset_ensures;

    let out = insert_by_start(sorted, c);
    if sorted.len() == 0 {
        assert(sorted =~= Seq::empty());
        assert(out =~= Seq::<Candidate>::empty().push(c));
    } else if sorted.last().start <= c.start {
        assert forall|k: int| 0 <= k < out.len() implies (#[trigger] out[k]) == c
            || sorted.contains(out[k]) by {
            if k < sorted.len() {
                assert(out[k] == sorted[k]);
            }
        }
    } else {
        let head = sorted.drop_last();
        lemma_insert_keeps_order(head, c);
        let mid = insert_by_start(head, c);
        assert(sorted =~= head.push(sorted.last()));
        assert forall|j: int, k: int| 0 <= j < k < out.len() implies (#[trigger] out[j]).start <= (
        #[trigger] out[k]).start by {
            if k < mid.len() {
                assert(out[j] == mid[j] && out[k] == mid[k]);
            } else {
                assert(out[j] == mid[j]);
                if mid[j] != c {
                    assert(head.contains(mid[j]));
                    let w = choose|w: int| 0 <= w < head.len() && head[w] == mid[j];
                    assert(sorted[w] == mid[j]);
                    assert(sorted[w].start <= sorted[sorted.len() - 1].start);
                }
            }
        }
        assert forall|k: int| 0 <= k < out.len() implies (#[trigger] out[k]) == c
            || sorted.contains(out[k]) by {
            if k < mid.len() {
                assert(out[k] == mid[k]);
                if mid[k] != c {
                    let w = choose|w: int| 0 <= w < head.len() && head[w] == mid[k];
                    assert(sorted[w] == mid[k]);
                }
            } else {
                assert(out[k] == sorted[sorted.len() - 1]);
            }
        }
    }
}

/// Sorting orders the candidates by start and neither adds nor loses one.
pub proof fn lemma_sort_by_start(candidates: Seq<Candidate>)
    ensures
        ordered_by_start(sort_by_start(candidates)),
        sort_by_start(candidates).len() == candidates.len(),
        sort_by_start(candidates).to_multiset() == candidates.to_multiset(),
        forall|k: int|
            0 <= k < sort_by_start(candidates).len() ==> candidates.contains(
                #[trigger] sort_by_start(candidates)[k],
            ),
    decreases candidates.len(),
{
    broadcast use vstd::seq_lib::group_to_multiset_ensures;

    if candidates.len() > 0 {
        let head = candidates.drop_last();
        lemma_sort_by_start(head);
        lemma_insert_keeps_order(sort_by_start(head), candidates.last());
        assert(candidates =~= head.push(candidates.last()));
        let out = sort_by_start(candidates);
        assert forall|k: int| 0 <= k < out.len() implies candidates.contains(#[trigger] out[k]) by {
            if out[k] == candidates.last() {
                assert(candidates[candidates.len() - 1] == out[k]);
            } else {
                assert(sort_by_start(head).contains(out[k]));
                let w = choose|w: int|
                    0 <= w < sort_by_start(head).len() && sort_by_start(head)[w] == out[k];
                assert(head.contains(sort_by_start(head)[w]));
                let v = choose|v: int| 0 <= v < head.len() && head[v] == out[k];
                assert(candidates[v] == out[k]);
            }
        }
    }
}

/// The candidates that start at `start`, in their order.
pub open spec fn starting_at(candidates: Seq<Candidate>, start: usize) -> Seq<Candidate>
    decreases candidates.len(),
{
    if candidates.len() == 0 {
        Seq::empty()
    } else if candidates.last().start == start {
        starting_at(candidates.drop_last(), start).push(candidates.last())
    } else {
        starting_at(candidates.drop_last(), start)
    }
}

proof fn lemma_starting_at_push(candidates: Seq<Candidate>, c: Candidate, start: usize)
    ensures
        starting_at(candidates.push(c), start) == if c.start == start {
            starting_at(candidates, start).push(c)
        } else {
            starting_at(candidates, start)
        },
{
    assert(candidates.push(c).drop_last() =~= candidates);
}

proof fn lemma_insert_is_stable(sorted: Seq<Candidate>, c: Candidate, start: usize)
    ensures
        starting_at(insert_by_start(sorted, c), start) == if c.start == start {
            starting_at(sorted, start).push(c)
        } else {
            starting_at(sorted, start)
        },
    decreases sorted.len(),
{
    if sorted.len() == 0 {
        assert(seq![c] =~= Seq::<Candidate>::empty().push(c));
        lemma_starting_at_push(Seq::empty(), c, start);
        assert(sorted =~= Seq::empty());
    } else if sorted.last().start <= c.start {
        lemma_starting_at_push(sorted, c, start);
    } else {
        let head = sorted.drop_last();
        lemma_insert_is_stable(head, c, start);
        lemma_starting_at_push(insert_by_start(head, c), sorted.last(), start);
    }
}

/// Sorting is stable: the candidates that start at one offset come out in the
/// order in which they went in.
pub proof fn lemma_sort_is_stable(candidates: Seq<Candidate>, start: usize)
    ensures
        starting_at(sort_by_start(candidates), start) == starting_at(candidates, start),
    decreases candidates.len(),
{
    if candidates.len() > 0 {
        lemma_sort_is_stable(candidates.drop_last(), start);
        lemma_insert_is_stable(sort_by_start(candidates.drop_last()), candidates.last(), start);
    }
}

/// The candidates in order of their start offsets; candidates with the same
/// start stay in the order in which they were given.
pub fn sort_candidates(candidates: &Vec<Candidate>) -> (sorted: Vec<Candidate>)
    ensures
        sorted@ == sort_by_start(candidates@),
        ordered_by_start(sorted@),
        sorted@.to_multiset() == candidates@.to_multiset(),
{
    let mut sorted: Vec<Candidate> = Vec::new();
    let mut k: usize = 0;
    while k < candidates.len()
        invariant
            k <= candidates@.len(),
            sorted@ == sort_by_start(candidates@.take(k as int)),
        decreases candidates@.len() - k,
    {
        let c = candidates[k];
        let mut pos: usize = sorted.len();
        while pos > 0 && sorted[pos - 1].start > c.start
            invariant
                pos <= sorted@.len(),
                forall|j: int| pos <= j < sorted@.len() ==> (#[trigger] sorted@[j]).start > c.start,
            decreases pos,
        {
            pos -= 1;
        }
        proof {
            lemma_insert_at(sorted@, c, pos as int);
            assert(candidates@.take(k as int + 1).drop_last() =~= candidates@.take(k as int));
        }
        sorted.insert(pos, c);
        k += 1;
    }
    assert(candidates@.take(k as int) =~= candidates@);
    proof {
        lemma_sort_by_start(candidates@);
    }
    sorted
}

/// Where the run of candidates that overlap candidate `i` ends, looking from
/// `j` on: the first index at which a candidate does not overlap it.
pub open spec fn run_end(sorted: Seq<Candidate>, i: int, j: int) -> int
    decreases sorted.len() - j,
{
    if 0 <= j < sorted.len() && overlapping(sorted[i], sorted[j]) {
        run_end(sorted, i, j + 1)
    } else {
        j
    }
}

/// Whether candidate `i` gives way to a candidate of the run that overlaps it,
/// looking from `j` on.
pub open spec fn gives_way(sorted: Seq<Candidate>, i: int, j: int) -> bool
    decreases sorted.len() - j,
{
    if 0 <= j < sorted.len() && overlapping(sorted[i], sorted[j]) {
        !keeps_first(sorted[i], sorted[j]) || gives_way(sorted, i, j + 1)
    } else {
        false
    }
}

/// The candidates accepted from index `i` on: a candidate that gives way is
/// dropped and the sweep goes on with the next one; a candidate that does not
/// is accepted, and the whole run that overlaps it is passed over.
pub open spec fn resolve_from(sorted: Seq<Candidate>, i: int) -> Seq<Candidate>
    decreases sorted.len() - i,
{
    if i < 0 || i >= sorted.len() {
        Seq::empty()
    } else if gives_way(sorted, i, i + 1) {
        resolve_from(sorted, i + 1)
    } else {
        proof {
            lemma_run_end_bounds(sorted, i, i + 1);
        }
        seq![sorted[i]] + resolve_from(sorted, run_end(sorted, i, i + 1))
    }
}

/// The candidates that survive the sweep over a list ordered by start.
pub open spec fn resolve(sorted: Seq<Candidate>) -> Seq<Candidate> {
    resolve_from(sorted, 0)
}

/// Non-empty spans in order, none reaching into a later one.
pub open spec fn chained(accepted: Seq<Candidate>) -> bool {
    &&& forall|k: int| 0 <= k < accepted.len() ==> (#[trigger] accepted[k]).start < accepted[k].end
    &&& forall|j: int, k: int|
        0 <= j < k < accepted.len() ==> (#[trigger] accepted[j]).end <= (
        #[trigger] accepted[k]).start
}

pub open spec fn all_nonempty(candidates: Seq<Candidate>) -> bool {
    forall|k: int| 0 <= k < candidates.len() ==> (#[trigger] candidates[k]).start < candidates[k].end
}

/// The run that overlaps candidate `i` ends within the list, at a candidate that
/// does not overlap it or at the end of the list.
pub proof fn lemma_run_end_bounds(sorted: Seq<Candidate>, i: int, j: int)
    requires
        0 <= i < j <= sorted.len(),
    ensures
        j <= run_end(sorted, i, j) <= sorted.len(),
        run_end(sorted, i, j) < sorted.len() ==> !overlapping(
            sorted[i],
            sorted[run_end(sorted, i, j)],
        ),
    decreases sorted.len() - j,
{
    if j < sorted.len() && overlapping(sorted[i], sorted[j]) {
        lemma_run_end_bounds(sorted, i, j + 1);
    }
}

proof fn lemma_resolve_from(sorted: Seq<Candidate>, i: int)
    requires
        ordered_by_start(sorted),
        all_nonempty(sorted),
        0 <= i <= sorted.len(),
    ensures
        chained(resolve_from(sorted, i)),
        forall|k: int|
            0 <= k < resolve_from(sorted, i).len() ==> sorted.contains(
                #[trigger] resolve_from(sorted, i)[k],
            ),
        i < sorted.len() && resolve_from(sorted, i).len() > 0 ==> sorted[i].start <= resolve_from(
            sorted,
            i,
        )[0].start,
    decreases sorted.len() - i,
{
    if i < sorted.len() {
        if gives_way(sorted, i, i + 1) {
            lemma_resolve_from(sorted, i + 1);
            if i + 1 < sorted.len() {
                assert(sorted[i].start <= sorted[i + 1].start);
            }
        } else {
            let j = run_end(sorted, i, i + 1);
            lemma_run_end_bounds(sorted, i, i + 1);
            lemma_resolve_from(sorted, j);
            let rest = resolve_from(sorted, j);
            let out = resolve_from(sorted, i);
            assert(out == seq![sorted[i]] + rest);
            assert(out[0] == sorted[i]);
            assert forall|k: int| 0 <= k < out.len() implies sorted.contains(#[trigger] out[k]) by {
                if k > 0 {
                    assert(out[k] == rest[k - 1]);
                }
            }
            assert forall|k: int| 0 <= k < out.len() implies (#[trigger] out[k]).start
                < out[k].end by {
                if k > 0 {
                    assert(out[k] == rest[k - 1]);
                }
            }
            assert forall|a: int, b: int| 0 <= a < b < out.len() implies (#[trigger] out[a]).end <= (
            #[trigger] out[b]).start by {
                assert(out[b] == rest[b - 1]);
                if a > 0 {
                    assert(out[a] == rest[a - 1]);
                } else {
                    assert(sorted[i].start <= sorted[j].start);
                    assert(!overlapping(sorted[i], sorted[j]));
                    assert(sorted[j].start <= rest[0].start);
                    if b > 1 {
                        assert(rest[0].end <= rest[b - 1].start);
                    }
                }
            }
        }
    }
}

/// Of non-empty candidates ordered by start, the sweep accepts candidates of
/// the list, and no accepted candidate reaches into the next.
pub proof fn lemma_resolve_is_chained(sorted: Seq<Candidate>)
    requires
        ordered_by_start(sorted),
        all_nonempty(sorted),
    ensures
        chained(resolve(sorted)),
        forall|k: int|
            0 <= k < resolve(sorted).len() ==> sorted.contains(#[trigger] resolve(sorted)[k]),
{
    lemma_resolve_from(sorted, 0);
}

/// The candidates of the highest rank keep clear of each other: no two
/// different IPv4 candidates overlap.
pub open spec fn top_ranked_apart(candidates: Seq<Candidate>) -> bool {
    forall|p: int, q: int|
        0 <= p < candidates.len() && 0 <= q < candidates.len() && (#[trigger] candidates[p]).kind
            == TokenKind::IPv4 && (#[trigger] candidates[q]).kind == TokenKind::IPv4
            && candidates[p] != candidates[q] ==> !overlapping(candidates[p], candidates[q])
}

/// A candidate that gives way is not of the highest rank.
proof fn lemma_gives_way_is_outranked(sorted: Seq<Candidate>, i: int, j: int)
    requires
        ordered_by_start(sorted),
        0 <= i < j <= sorted.len(),
        gives_way(sorted, i, j),
    ensures
        sorted[i].kind != TokenKind::IPv4,
    decreases sorted.len() - j,
{
    if j < sorted.len() && overlapping(sorted[i], sorted[j]) {
        if keeps_first(sorted[i], sorted[j]) {
            lemma_gives_way_is_outranked(sorted, i, j + 1);
        } else {
            assert(sorted[i].start <= sorted[j].start);
        }
    }
}

/// Every candidate of the run that overlaps candidate `i` overlaps it, and
/// ranks no higher than it if it does not give way.
proof fn lemma_run_members(sorted: Seq<Candidate>, i: int, j: int, p: int)
    requires
        0 <= i < j <= p < run_end(sorted, i, j),
        j <= sorted.len(),
    ensures
        p < sorted.len(),
        overlapping(sorted[i], sorted[p]),
        !gives_way(sorted, i, j) ==> keeps_first(sorted[i], sorted[p]),
    decreases sorted.len() - j,
{
    lemma_run_end_bounds(sorted, i, j);
    if j < sorted.len() && overlapping(sorted[i], sorted[j]) {
        if p > j {
            lemma_run_members(sorted, i, j + 1, p);
        }
    }
}

proof fn lemma_top_rank_survives_from(sorted: Seq<Candidate>, i: int)
    requires
        ordered_by_start(sorted),
        top_ranked_apart(sorted),
        0 <= i <= sorted.len(),
    ensures
        forall|p: int|
            i <= p < sorted.len() && (#[trigger] sorted[p]).kind == TokenKind::IPv4
                ==> resolve_from(sorted, i).contains(sorted[p]),
    decreases sorted.len() - i,
{
    if i < sorted.len() {
        let out = resolve_from(sorted, i);
        if gives_way(sorted, i, i + 1) {
            lemma_gives_way_is_outranked(sorted, i, i + 1);
            lemma_top_rank_survives_from(sorted, i + 1);
        } else {
            let e = run_end(sorted, i, i + 1);
            lemma_run_end_bounds(sorted, i, i + 1);
            lemma_top_rank_survives_from(sorted, e);
            let rest = resolve_from(sorted, e);
            assert(out == seq![sorted[i]] + rest);
            assert(out[0] == sorted[i]);
            assert forall|p: int|
                i <= p < sorted.len() && (#[trigger] sorted[p]).kind
                    == TokenKind::IPv4 implies out.contains(sorted[p]) by {
                if p == i {
                } else if p < e {
                    lemma_run_members(sorted, i, i + 1, p);
                    assert(sorted[i].kind == TokenKind::IPv4);
                    assert(sorted[p] == sorted[i]);
                } else {
                    assert(rest.contains(sorted[p]));
                    let w = choose|w: int| 0 <= w < rest.len() && rest[w] == sorted[p];
                    assert(out[w + 1] == sorted[p]);
                }
            }
        }
    }
}

/// Precedence: where the candidates of the highest rank keep clear of each
/// other, the sweep accepts every one of them, whatever else overlaps them.
pub proof fn lemma_top_rank_survives(candidates: Seq<Candidate>)
    requires
        top_ranked_apart(candidates),
    ensures
        forall|c: Candidate|
            candidates.contains(c) && c.kind == TokenKind::IPv4 ==> #[trigger] resolve(
                sort_by_start(candidates),
            ).contains(c),
{
    broadcast use vstd::seq_lib::to_multiset_contains;

    let sorted = sort_by_start(candidates);
    lemma_sort_by_start(candidates);
    assert forall|p: int, q: int|
        0 <= p < sorted.len() && 0 <= q < sorted.len() && (#[trigger] sorted[p]).kind
            == TokenKind::IPv4 && (#[trigger] sorted[q]).kind == TokenKind::IPv4 && sorted[p]
            != sorted[q] implies !overlapping(sorted[p], sorted[q]) by {
        assert(candidates.contains(sorted[p]));
        assert(candidates.contains(sorted[q]));
        let a = choose|a: int| 0 <= a < candidates.len() && candidates[a] == sorted[p];
        let b = choose|b: int| 0 <= b < candidates.len() && candidates[b] == sorted[q];
        assert(!overlapping(candidates[a], candidates[b]));
    }
    lemma_top_rank_survives_from(sorted, 0);
    assert forall|c: Candidate| candidates.contains(c) && c.kind == TokenKind::IPv4 implies (
    #[trigger] resolve(sorted).contains(c)) by {
        assert(candidates.to_multiset().count(c) > 0);
        assert(sorted.to_multiset().count(c) > 0);
        assert(sorted.contains(c));
        let p = choose|p: int| 0 <= p < sorted.len() && sorted[p] == c;
        assert(sorted[p].kind == TokenKind::IPv4);
    }
}

/// Precedence, seen from below: an accepted candidate of a lower rank overlaps
/// no candidate of the highest rank.
pub proof fn lemma_accepted_clear_of_top(candidates: Seq<Candidate>, c: Candidate, top: Candidate)
    requires
        all_nonempty(candidates),
        top_ranked_apart(candidates),
        resolve(sort_by_start(candidates)).contains(c),
        c.kind != TokenKind::IPv4,
        candidates.contains(top),
        top.kind == TokenKind::IPv4,
    ensures
        !overlapping(c, top),
{
    let sorted = sort_by_start(candidates);
    let accepted = resolve(sorted);
    lemma_top_rank_survives(candidates);
    assert(accepted.contains(top));
    lemma_sort_by_start(candidates);
    assert forall|k: int| 0 <= k < sorted.len() implies (#[trigger] sorted[k]).start
        < sorted[k].end by {
        assert(candidates.contains(sorted[k]));
        let w = choose|w: int| 0 <= w < candidates.len() && candidates[w] == sorted[k];
        assert(candidates[w].start < candidates[w].end);
    }
    lemma_resolve_is_chained(sorted);
    let x = choose|x: int| 0 <= x < accepted.len() && accepted[x] == c;
    let y = choose|y: int| 0 <= y < accepted.len() && accepted[y] == top;
    if x < y {
        assert(accepted[x].end <= accepted[y].start);
    } else {
        assert(accepted[y].end <= accepted[x].start);
    }
}

/// Of two candidates that overlap, only the higher-ranked one survives,
/// whichever of the two comes first.
pub proof fn lemma_higher_rank_wins(winner: Candidate, loser: Candidate)
    requires
        overlapping(winner, loser),
        winner.kind.rank() > loser.kind.rank(),
    ensures
        resolve(sort_by_start(seq![winner, loser])) == seq![winner],
        resolve(sort_by_start(seq![loser, winner])) == seq![winner],
{
    reveal_with_fuel(sort_by_start, 3);
    reveal_with_fuel(insert_by_start, 3);
    reveal_with_fuel(resolve_from, 3);
    reveal_with_fuel(gives_way, 3);
    reveal_with_fuel(run_end, 3);
    let wl = seq![winner, loser];
    let lw = seq![loser, winner];
    assert(wl.drop_last() =~= seq![winner]);
    assert(lw.drop_last() =~= seq![loser]);
    assert(seq![winner].drop_last() =~= Seq::<Candidate>::empty());
    assert(seq![loser].drop_last() =~= Seq::<Candidate>::empty());
    assert(sort_by_start(seq![winner]) =~= seq![winner]);
    assert(sort_by_start(seq![loser]) =~= seq![loser]);
    assert(seq![winner].push(loser) =~= wl);
    assert(seq![loser].push(winner) =~= lw);
    assert(Seq::<Candidate>::empty().push(winner).push(loser) =~= wl);
    assert(Seq::<Candidate>::empty().push(loser).push(winner) =~= lw);
    let a = sort_by_start(wl);
    let b = sort_by_start(lw);
    assert(a =~= wl || a =~= lw);
    assert(b =~= wl || b =~= lw);
    assert(resolve(wl) =~= seq![winner]);
    assert(resolve(lw) =~= seq![winner]);
}

/// One sweep from the left over candidates ordered by start: the candidates
/// that survive, in order.
pub fn resolve_overlaps(sorted: &Vec<Candidate>) -> (accepted: Vec<Candidate>)
    ensures
        accepted@ == resolve(sorted@),
        ordered_by_start(sorted@) && all_nonempty(sorted@) ==> chained(accepted@),
{
    let mut accepted: Vec<Candidate> = Vec::new();
    let mut i: usize = 0;
    while i < sorted.len()
        invariant
            i <= sorted@.len(),
            accepted@ + resolve_from(sorted@, i as int) == resolve(sorted@),
        decreases sorted@.len() - i,
    {
        let current = sorted[i];
        let mut should_add = true;
        let mut j: usize = i + 1;
        while should_add && j < sorted.len() && is_overlapping(
            current.start,
            current.end,
            sorted[j].start,
            sorted[j].end,
        )
            invariant
                i < j <= sorted@.len(),
                current == sorted@[i as int],
                should_add ==> gives_way(sorted@, i as int, i + 1) == gives_way(
                    sorted@,
                    i as int,
                    j as int,
                ),
                should_add ==> run_end(sorted@, i as int, i + 1) == run_end(
                    sorted@,
                    i as int,
                    j as int,
                ),
                !should_add ==> gives_way(sorted@, i as int, i + 1),
            decreases sorted@.len() - j + if should_add { 1int } else { 0int },
        {
            if !should_keep_first(
                current.kind.priority(),
                current.start,
                sorted[j].kind.priority(),
                sorted[j].start,
            ) {
                should_add = false;
            } else {
                j += 1;
            }
        }

        if should_add {
            proof {
                assert((accepted@.push(current)) + resolve_from(sorted@, j as int) =~= accepted@
                    + (seq![current] + resolve_from(sorted@, j as int)));
            }
            accepted.push(current);
            i = j;
        } else {
            i += 1;
        }
    }
    assert(accepted@ + resolve_from(sorted@, i as int) =~= accepted@);
    proof {
        if ordered_by_start(sorted@) && all_nonempty(sorted@) {
            lemma_resolve_is_chained(sorted@);
        }
    }
    accepted
}

} // verus!
