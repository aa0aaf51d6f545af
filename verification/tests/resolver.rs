use nali::resolver::{
    is_overlapping, resolve_overlaps, should_keep_first, sort_candidates, Candidate,
};
use nali::TokenKind;

fn c(start: usize, end: usize, kind: TokenKind) -> Candidate {
    Candidate { start, end, kind }
}

#[test]
fn half_open_spans_overlap_only_when_they_share_a_byte() {
    assert!(is_overlapping(0, 5, 4, 8));
    assert!(!is_overlapping(0, 5, 5, 8));
    assert!(is_overlapping(2, 3, 0, 10));
    assert!(!is_overlapping(5, 8, 0, 5));
}

#[test]
fn higher_priority_keeps_its_place() {
    assert!(should_keep_first(3, 10, 1, 0));
    assert!(!should_keep_first(1, 0, 3, 10));
    assert!(should_keep_first(2, 4, 2, 4));
    assert!(should_keep_first(2, 4, 2, 5));
    assert!(!should_keep_first(2, 5, 2, 4));
}

#[test]
fn sorting_is_stable() {
    let sorted = sort_candidates(&vec![
        c(5, 6, TokenKind::IPv4),
        c(1, 9, TokenKind::Domain),
        c(5, 7, TokenKind::IPv6),
        c(1, 2, TokenKind::IPv4),
        c(0, 1, TokenKind::Domain),
    ]);
    assert_eq!(
        sorted,
        vec![
            c(0, 1, TokenKind::Domain),
            c(1, 9, TokenKind::Domain),
            c(1, 2, TokenKind::IPv4),
            c(5, 6, TokenKind::IPv4),
            c(5, 7, TokenKind::IPv6),
        ]
    );
}

#[test]
fn lower_rank_is_dropped_whole() {
    let accepted = resolve_overlaps(&vec![c(0, 11, TokenKind::Domain), c(0, 7, TokenKind::IPv4)]);
    assert_eq!(accepted, vec![c(0, 7, TokenKind::IPv4)]);
    let accepted = resolve_overlaps(&vec![c(0, 7, TokenKind::IPv4), c(2, 11, TokenKind::Domain)]);
    assert_eq!(accepted, vec![c(0, 7, TokenKind::IPv4)]);
}

#[test]
fn accepted_candidate_passes_over_its_whole_run() {
    // [0,10) is accepted; [2,4) and [8,12) overlap it and go, though [12,15)
    // would have fitted beside [8,12)
    let accepted = resolve_overlaps(&vec![
        c(0, 10, TokenKind::IPv4),
        c(2, 4, TokenKind::IPv6),
        c(8, 12, TokenKind::Domain),
        c(12, 15, TokenKind::Domain),
    ]);
    assert_eq!(accepted, vec![c(0, 10, TokenKind::IPv4), c(12, 15, TokenKind::Domain)]);
}

#[test]
fn dropping_is_decided_over_the_whole_run() {
    // [0,10) gives way to the IPv4 candidate at the end of its run; the sweep
    // then starts again at [1,3)
    let accepted = resolve_overlaps(&vec![
        c(0, 10, TokenKind::Domain),
        c(1, 3, TokenKind::Domain),
        c(5, 9, TokenKind::IPv4),
    ]);
    assert_eq!(accepted, vec![c(1, 3, TokenKind::Domain), c(5, 9, TokenKind::IPv4)]);
}

#[test]
fn disjoint_candidates_all_stay() {
    let all = vec![c(0, 3, TokenKind::Domain), c(3, 5, TokenKind::IPv6), c(7, 9, TokenKind::IPv4)];
    assert_eq!(resolve_overlaps(&all), all);
    assert_eq!(resolve_overlaps(&vec![]), vec![]);
}
