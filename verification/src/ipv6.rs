//! The state machine that recognises colon-separated hexadecimal IPv6
//! addresses, `::` included. It goes by shape alone: a candidate counts as an
//! address once it holds a double colon or seven colons.

use vstd::prelude::*;
use crate::ipv4::{frontier, is_digit, lemma_push_ordered, spans_ordered};

verus! {

#[derive(PartialEq, Eq, Structural, Clone, Copy, Debug)]
pub enum IPv6State {
    Any,
    Hex,
    Colon,
}

/// The scanner between two bytes: where the candidate in progress began, how
/// many colons it holds (a double colon counts once), whether it holds a double
/// colon, and how many digits its last group is counted to have.
pub struct Ipv6Scan {
    pub state: IPv6State,
    pub colon_count: int,
    pub has_double_colon: bool,
    pub group_len: int,
    pub start: int,
}

/// The byte `:`.
pub const COLON: u8 = 0x3a;

/// The byte `a`.
pub const LOWER_A: u8 = 0x61;

/// The byte `f`.
pub const LOWER_F: u8 = 0x66;

/// The byte `A`.
pub const UPPER_A: u8 = 0x41;

/// The byte `F`.
pub const UPPER_F: u8 = 0x46;

pub open spec fn is_hex(c: u8) -> bool {
    is_digit(c) || LOWER_A <= c <= LOWER_F || UPPER_A <= c <= UPPER_F
}

pub open spec fn is_colon(c: u8) -> bool {
    c == COLON
}

pub open spec fn ipv6_idle() -> Ipv6Scan {
    Ipv6Scan {
        state: IPv6State::Any,
        colon_count: 0,
        has_double_colon: false,
        group_len: 0,
        start: 0,
    }
}

/// Whether the candidate in progress already counts as an address.
pub open spec fn ipv6_pending(t: Ipv6Scan) -> bool {
    t.has_double_colon || t.colon_count == 7
}

/// Whether the candidate in progress can take no further colon.
pub open spec fn ipv6_full(t: Ipv6Scan) -> bool {
    (t.has_double_colon && t.colon_count == 6) || t.colon_count == 7
}

/// The scanner after reading byte `c` at offset `i`.
pub open spec fn ipv6_step(t: Ipv6Scan, i: int, c: u8) -> Ipv6Scan {
    match t.state {
        IPv6State::Any => if is_hex(c) {
            Ipv6Scan {
                state: IPv6State::Hex,
                colon_count: 0,
                has_double_colon: false,
                group_len: 1,
                start: i,
            }
        } else {
            ipv6_idle()
        },
        IPv6State::Hex => if is_hex(c) {
            if t.group_len < 4 {
                Ipv6Scan { group_len: t.group_len + 1, ..t }
            } else if ipv6_pending(t) {
                ipv6_idle()
            } else {
                Ipv6Scan {
                    state: IPv6State::Hex,
                    colon_count: 0,
                    has_double_colon: false,
                    group_len: 3,
                    start: i - 3,
                }
            }
        } else if is_colon(c) && !ipv6_full(t) {
            Ipv6Scan { state: IPv6State::Colon, colon_count: t.colon_count + 1, ..t }
        } else {
            ipv6_idle()
        },
        IPv6State::Colon => if is_hex(c) {
            Ipv6Scan { state: IPv6State::Hex, group_len: 1, ..t }
        } else if is_colon(c) && !t.has_double_colon {
            Ipv6Scan { has_double_colon: true, ..t }
        } else {
            ipv6_idle()
        },
    }
}

/// The span that reading byte `c` at offset `i` commits, if it commits one.
pub open spec fn ipv6_emit(t: Ipv6Scan, i: int, c: u8) -> Option<(int, int)> {
    match t.state {
        IPv6State::Any => None,
        IPv6State::Hex => if is_hex(c) {
            if t.group_len >= 4 && ipv6_pending(t) {
                Some((t.start, i))
            } else {
                None
            }
        } else if is_colon(c) {
            if ipv6_full(t) {
                Some((t.start, i))
            } else {
                None
            }
        } else if ipv6_pending(t) {
            Some((t.start, i))
        } else {
            None
        },
        IPv6State::Colon => if is_hex(c) {
            None
        } else if !t.has_double_colon {
            None
        } else if is_colon(c) {
            // a second double colon: the candidate ends before this pair
            Some((t.start, i - 1))
        } else {
            Some((t.start, i))
        },
    }
}

/// The scanner after the first `n` bytes.
pub open spec fn ipv6_scan(bytes: Seq<u8>, n: int) -> Ipv6Scan
    decreases n,
{
    if n <= 0 {
        ipv6_idle()
    } else {
        ipv6_step(ipv6_scan(bytes, n - 1), n - 1, bytes[n - 1])
    }
}

/// The spans committed while reading the first `n` bytes, in order.
pub open spec fn ipv6_found(bytes: Seq<u8>, n: int) -> Seq<(int, int)>
    decreases n,
{
    if n <= 0 {
        Seq::empty()
    } else {
        match ipv6_emit(ipv6_scan(bytes, n - 1), n - 1, bytes[n - 1]) {
            Some(span) => ipv6_found(bytes, n - 1).push(span),
            None => ipv6_found(bytes, n - 1),
        }
    }
}

/// `hi` moved left past the colons that stand right before it.
pub open spec fn trim_colons(bytes: Seq<u8>, hi: int) -> int
    decreases hi,
{
    if 0 < hi <= bytes.len() && is_colon(bytes[hi - 1]) {
        trim_colons(bytes, hi - 1)
    } else {
        hi
    }
}

/// Every span the scanner recognises in `bytes`: those committed on the way,
/// then the candidate still open at the end if it counts as an address, without
/// the colons that the input ends in.
pub open spec fn ipv6_matches(bytes: Seq<u8>) -> Seq<(int, int)> {
    let t = ipv6_scan(bytes, bytes.len() as int);
    let found = ipv6_found(bytes, bytes.len() as int);
    if ipv6_pending(t) {
        found.push((t.start, trim_colons(bytes, bytes.len() as int)))
    } else {
        found
    }
}

/// `[start, end)` is not empty, begins with a hexadecimal digit and holds
/// nothing but hexadecimal digits and colons.
pub open spec fn is_hex_colon_run(bytes: Seq<u8>, start: int, end: int) -> bool {
    &&& 0 <= start < end <= bytes.len()
    &&& is_hex(bytes[start])
    &&& forall|k: int| start <= k < end ==> is_hex(#[trigger] bytes[k]) || is_colon(bytes[k])
}

/// What holds of the scanner and of the committed spans after `n` bytes.
pub open spec fn ipv6_inv(bytes: Seq<u8>, n: int, t: Ipv6Scan, found: Seq<(int, int)>) -> bool {
    &&& 0 <= t.colon_count <= 7
    &&& spans_ordered(found)
    &&& frontier(found) <= n
    &&& forall|k: int|
        0 <= k < found.len() ==> is_hex_colon_run(bytes, (#[trigger] found[k]).0, found[k].1)
    &&& match t.state {
        IPv6State::Any => t.colon_count == 0 && !t.has_double_colon && t.group_len == 0,
        IPv6State::Hex => {
            &&& frontier(found) <= t.start
            &&& 1 <= t.group_len <= 4
            &&& t.group_len <= n - t.start
            &&& is_hex_colon_run(bytes, t.start, n)
            &&& forall|k: int| n - t.group_len <= k < n ==> is_hex(#[trigger] bytes[k])
        },
        IPv6State::Colon => {
            &&& frontier(found) <= t.start < n - 1
            &&& is_hex_colon_run(bytes, t.start, n)
            &&& is_colon(bytes[n - 1])
        },
    }
}

/// Committing a span that begins at or after the last one keeps the spans in
/// order and of the expected shape.
proof fn lemma_push_keeps_order(bytes: Seq<u8>, found: Seq<(int, int)>, span: (int, int))
    requires
        spans_ordered(found),
        frontier(found) <= span.0,
        is_hex_colon_run(bytes, span.0, span.1),
        forall|k: int|
            0 <= k < found.len() ==> is_hex_colon_run(bytes, (#[trigger] found[k]).0, found[k].1),
    ensures
        spans_ordered(found.push(span)),
        frontier(found.push(span)) == span.1,
        forall|k: int|
            0 <= k < found.push(span).len() ==> is_hex_colon_run(
                bytes,
                (#[trigger] found.push(span)[k]).0,
                found.push(span)[k].1,
            ),
{
    lemma_push_ordered(found, span);
    let all = found.push(span);
    assert forall|k: int| 0 <= k < all.len() implies is_hex_colon_run(
        bytes,
        (#[trigger] all[k]).0,
        all[k].1,
    ) by {
        if k < found.len() {
            assert(all[k] == found[k]);
        }
    }
}

/// One step of the scanner keeps the invariant.
proof fn lemma_ipv6_step(bytes: Seq<u8>, n: int)
    requires
        0 <= n < bytes.len(),
        ipv6_inv(bytes, n, ipv6_scan(bytes, n), ipv6_found(bytes, n)),
    ensures
        ipv6_inv(bytes, n + 1, ipv6_scan(bytes, n + 1), ipv6_found(bytes, n + 1)),
{
    let t = ipv6_scan(bytes, n);
    let found = ipv6_found(bytes, n);
    let c = bytes[n];
    assert(ipv6_scan(bytes, n + 1) == ipv6_step(t, n, c));
    assert(ipv6_found(bytes, n + 1) == match ipv6_emit(t, n, c) {
        Some(span) => found.push(span),
        None => found,
    });
    match ipv6_emit(t, n, c) {
        Some(span) => {
            lemma_push_keeps_order(bytes, found, span);
        },
        None => {},
    }
}

/// The invariant holds after every prefix of the input.
pub proof fn lemma_ipv6_inv(bytes: Seq<u8>, n: int)
    requires
        0 <= n <= bytes.len(),
    ensures
        ipv6_inv(bytes, n, ipv6_scan(bytes, n), ipv6_found(bytes, n)),
    decreases n,
{
    if n > 0 {
        lemma_ipv6_inv(bytes, n - 1);
        lemma_ipv6_step(bytes, n - 1);
    }
}

/// Trimming colons stops at the latest right after the last byte that is none.
pub proof fn lemma_trim_colons_bounds(bytes: Seq<u8>, hi: int, k: int)
    requires
        0 <= k < hi <= bytes.len(),
        !is_colon(bytes[k]),
    ensures
        k < trim_colons(bytes, hi) <= hi,
    decreases hi,
{
    if is_colon(bytes[hi - 1]) {
        lemma_trim_colons_bounds(bytes, hi - 1, k);
    }
}

/// Every span that the scanner recognises is a run of hexadecimal digits and
/// colons that begins with a digit, and the spans come in order without
/// overlapping.
pub proof fn lemma_ipv6_matches_are_runs(bytes: Seq<u8>)
    ensures
        spans_ordered(ipv6_matches(bytes)),
        frontier(ipv6_matches(bytes)) <= bytes.len(),
        forall|k: int|
            0 <= k < ipv6_matches(bytes).len() ==> is_hex_colon_run(
                bytes,
                (#[trigger] ipv6_matches(bytes)[k]).0,
                ipv6_matches(bytes)[k].1,
            ),
{
    let n = bytes.len() as int;
    lemma_ipv6_inv(bytes, n);
    let t = ipv6_scan(bytes, n);
    let found = ipv6_found(bytes, n);
    if ipv6_pending(t) {
        lemma_trim_colons_bounds(bytes, n, t.start);
        lemma_push_keeps_order(bytes, found, (t.start, trim_colons(bytes, n)));
    }
}

} // verus!
