//! The state machine that recognises dotted-quad IPv4 addresses, as a
//! mathematical object: its states, its transitions, the spans it commits, and
//! what every committed span looks like.

use vstd::prelude::*;

verus! {

#[derive(PartialEq, Eq, Structural, Clone, Copy, Debug)]
pub enum IPv4State {
    Any,
    Digit,
    Dot,
}

/// The scanner between two bytes: where the candidate in progress began, how
/// many dots it holds and the value of its last group so far.
pub struct Ipv4Scan {
    pub state: IPv4State,
    pub dot_count: int,
    pub number: int,
    pub start: int,
}

/// The byte `0`.
pub const DIGIT_ZERO: u8 = 0x30;

/// The byte `9`.
pub const DIGIT_NINE: u8 = 0x39;

/// The byte `.`.
pub const DOT: u8 = 0x2e;

pub open spec fn is_digit(c: u8) -> bool {
    DIGIT_ZERO <= c <= DIGIT_NINE
}

pub open spec fn digit_value(c: u8) -> int {
    c - DIGIT_ZERO
}

pub open spec fn is_dot(c: u8) -> bool {
    c == DOT
}

pub open spec fn ipv4_idle() -> Ipv4Scan {
    Ipv4Scan { state: IPv4State::Any, dot_count: 0, number: 0, start: 0 }
}

/// The scanner after reading byte `c` at offset `i`.
pub open spec fn ipv4_step(t: Ipv4Scan, i: int, c: u8) -> Ipv4Scan {
    match t.state {
        IPv4State::Any => if is_digit(c) {
            Ipv4Scan { state: IPv4State::Digit, dot_count: 0, number: digit_value(c), start: i }
        } else {
            ipv4_idle()
        },
        IPv4State::Digit => if is_digit(c) {
            let grown = t.number * 10 + digit_value(c);
            if grown <= 255 {
                Ipv4Scan { number: grown, ..t }
            } else if t.dot_count == 3 {
                Ipv4Scan { state: IPv4State::Digit, dot_count: 0, number: digit_value(c), start: i }
            } else {
                Ipv4Scan {
                    state: IPv4State::Digit,
                    dot_count: 0,
                    number: grown % 100,
                    start: i - 1,
                }
            }
        } else if is_dot(c) && t.dot_count != 3 {
            Ipv4Scan { state: IPv4State::Dot, dot_count: t.dot_count + 1, ..t }
        } else {
            ipv4_idle()
        },
        IPv4State::Dot => if is_digit(c) {
            Ipv4Scan { state: IPv4State::Digit, number: digit_value(c), ..t }
        } else {
            ipv4_idle()
        },
    }
}

/// The span that reading byte `c` at offset `i` commits, if it commits one: a
/// candidate with three dots ends where its fourth group can grow no further.
pub open spec fn ipv4_emit(t: Ipv4Scan, i: int, c: u8) -> Option<(int, int)> {
    if t.state == IPv4State::Digit && t.dot_count == 3 && (!is_digit(c) || t.number * 10
        + digit_value(c) > 255) {
        Some((t.start, i))
    } else {
        None
    }
}

/// The scanner after the first `n` bytes.
pub open spec fn ipv4_scan(bytes: Seq<u8>, n: int) -> Ipv4Scan
    decreases n,
{
    if n <= 0 {
        ipv4_idle()
    } else {
        ipv4_step(ipv4_scan(bytes, n - 1), n - 1, bytes[n - 1])
    }
}

/// The spans committed while reading the first `n` bytes, in order.
pub open spec fn ipv4_found(bytes: Seq<u8>, n: int) -> Seq<(int, int)>
    decreases n,
{
    if n <= 0 {
        Seq::empty()
    } else {
        match ipv4_emit(ipv4_scan(bytes, n - 1), n - 1, bytes[n - 1]) {
            Some(span) => ipv4_found(bytes, n - 1).push(span),
            None => ipv4_found(bytes, n - 1),
        }
    }
}

/// Whether a candidate is complete when the input ends.
pub open spec fn ipv4_pending(t: Ipv4Scan) -> bool {
    t.dot_count == 3 && t.state == IPv4State::Digit
}

/// Every span the scanner recognises in `bytes`: those committed on the way,
/// then the candidate still open at the end if it is complete.
pub open spec fn ipv4_matches(bytes: Seq<u8>) -> Seq<(int, int)> {
    let t = ipv4_scan(bytes, bytes.len() as int);
    let found = ipv4_found(bytes, bytes.len() as int);
    if ipv4_pending(t) {
        found.push((t.start, bytes.len() as int))
    } else {
        found
    }
}

/// The decimal value of the digits in `[lo, hi)`.
pub open spec fn dec_value(bytes: Seq<u8>, lo: int, hi: int) -> int
    decreases hi - lo,
{
    if hi <= lo {
        0
    } else {
        dec_value(bytes, lo, hi - 1) * 10 + digit_value(bytes[hi - 1])
    }
}

pub open spec fn all_digits(bytes: Seq<u8>, lo: int, hi: int) -> bool {
    forall|k: int| lo <= k < hi ==> is_digit(#[trigger] bytes[k])
}

/// `[lo, hi)` is a group of one or more digits whose value is at most 255.
/// Leading zeros count as digits like any other.
pub open spec fn is_octet(bytes: Seq<u8>, lo: int, hi: int) -> bool {
    &&& 0 <= lo < hi <= bytes.len()
    &&& all_digits(bytes, lo, hi)
    &&& dec_value(bytes, lo, hi) <= 255
}

/// `[start, end)` is four octets separated by three dots.
pub open spec fn is_dotted_quad(bytes: Seq<u8>, start: int, end: int) -> bool {
    exists|a: int, b: int, c: int|
        {
            &&& is_octet(bytes, start, a)
            &&& is_dot(bytes[a])
            &&& #[trigger] is_octet(bytes, a + 1, b)
            &&& is_dot(bytes[b])
            &&& #[trigger] is_octet(bytes, b + 1, c)
            &&& is_dot(bytes[c])
            &&& is_octet(bytes, c + 1, end)
        }
}

/// Where the run of digits that ends at `hi` begins.
pub open spec fn run_start(bytes: Seq<u8>, hi: int) -> int
    decreases hi,
{
    if 0 < hi <= bytes.len() && is_digit(bytes[hi - 1]) {
        run_start(bytes, hi - 1)
    } else {
        hi
    }
}

/// `[lo, hi)` is `dots` octets each followed by a dot, then the digits of one
/// more octet.
pub open spec fn dotted(bytes: Seq<u8>, lo: int, hi: int, dots: int) -> bool
    decreases dots,
{
    if dots <= 0 {
        is_octet(bytes, lo, hi)
    } else {
        let g = run_start(bytes, hi);
        &&& lo < g - 1
        &&& is_dot(bytes[g - 1])
        &&& is_octet(bytes, g, hi)
        &&& dotted(bytes, lo, g - 1, dots - 1)
    }
}

/// Where the last group of the candidate in progress begins.
pub open spec fn group_start(bytes: Seq<u8>, n: int, t: Ipv4Scan) -> int {
    if t.dot_count == 0 {
        t.start
    } else {
        run_start(bytes, n)
    }
}

/// The end of the last span, or 0 when there is none.
pub open spec fn frontier(found: Seq<(int, int)>) -> int {
    if found.len() == 0 {
        0
    } else {
        found.last().1
    }
}

/// Spans that are non-empty and come in order, none reaching into a later one.
pub open spec fn spans_ordered(found: Seq<(int, int)>) -> bool {
    &&& forall|k: int| 0 <= k < found.len() ==> 0 <= (#[trigger] found[k]).0 < found[k].1
    &&& forall|j: int, k: int|
        0 <= j < k < found.len() ==> (#[trigger] found[j]).1 <= (#[trigger] found[k]).0
}

/// What holds of the scanner and of the committed spans after `n` bytes.
pub open spec fn ipv4_inv(bytes: Seq<u8>, n: int, t: Ipv4Scan, found: Seq<(int, int)>) -> bool {
    &&& 0 <= t.dot_count <= 3
    &&& 0 <= t.number <= 255
    &&& spans_ordered(found)
    &&& frontier(found) <= n
    &&& forall|k: int| 0 <= k < found.len() ==> is_dotted_quad(bytes, (#[trigger] found[k]).0, found[k].1)
    &&& match t.state {
        IPv4State::Any => t.dot_count == 0,
        IPv4State::Digit => {
            &&& frontier(found) <= t.start < n
            &&& dotted(bytes, t.start, n, t.dot_count)
            &&& t.number == dec_value(bytes, group_start(bytes, n, t), n)
        },
        IPv4State::Dot => {
            &&& frontier(found) <= t.start < n - 1
            &&& t.dot_count >= 1
            &&& is_dot(bytes[n - 1])
            &&& dotted(bytes, t.start, n - 1, t.dot_count - 1)
        },
    }
}

proof fn lemma_run_start_bounds(bytes: Seq<u8>, hi: int)
    requires
        0 <= hi <= bytes.len(),
    ensures
        0 <= run_start(bytes, hi) <= hi,
        all_digits(bytes, run_start(bytes, hi), hi),
        run_start(bytes, hi) > 0 ==> !is_digit(bytes[run_start(bytes, hi) - 1]),
    decreases hi,
{
    if 0 < hi && is_digit(bytes[hi - 1]) {
        lemma_run_start_bounds(bytes, hi - 1);
    }
}

/// A digit run that is cut short on the left by a byte that is no digit begins
/// right after that byte.
proof fn lemma_run_start_after_break(bytes: Seq<u8>, g: int, hi: int)
    requires
        0 < g <= hi <= bytes.len(),
        all_digits(bytes, g, hi),
        !is_digit(bytes[g - 1]),
    ensures
        run_start(bytes, hi) == g,
    decreases hi - g,
{
    if g < hi {
        lemma_run_start_after_break(bytes, g, hi - 1);
    }
}

proof fn lemma_dotted_ends(bytes: Seq<u8>, lo: int, hi: int, dots: int)
    requires
        dotted(bytes, lo, hi, dots),
    ensures
        0 <= lo < hi <= bytes.len(),
        is_digit(bytes[lo]),
        is_digit(bytes[hi - 1]),
    decreases dots,
{
    if dots > 0 {
        let g = run_start(bytes, hi);
        lemma_dotted_ends(bytes, lo, g - 1, dots - 1);
    }
}

/// Three dots and four octets, found from the right, are a dotted quad.
proof fn lemma_dotted_three_is_quad(bytes: Seq<u8>, lo: int, hi: int)
    requires
        dotted(bytes, lo, hi, 3),
    ensures
        is_dotted_quad(bytes, lo, hi),
{
    reveal_with_fuel(dotted, 4);
    let c = run_start(bytes, hi) - 1;
    let b = run_start(bytes, c) - 1;
    let a = run_start(bytes, b) - 1;
    assert(is_octet(bytes, a + 1, b));
    assert(is_octet(bytes, b + 1, c));
    assert(is_octet(bytes, lo, a));
    assert(is_octet(bytes, c + 1, hi));
}

/// Reading one more digit into the last group keeps the shape, as long as the
/// group's value stays an octet.
proof fn lemma_dotted_grow(bytes: Seq<u8>, lo: int, n: int, dots: int)
    requires
        dotted(bytes, lo, n, dots),
        0 <= dots,
        n < bytes.len(),
        is_digit(bytes[n]),
        dec_value(bytes, if dots == 0 { lo } else { run_start(bytes, n) }, n) * 10 + digit_value(
            bytes[n],
        ) <= 255,
    ensures
        dotted(bytes, lo, n + 1, dots),
        run_start(bytes, n + 1) == run_start(bytes, n),
{
    lemma_dotted_ends(bytes, lo, n, dots);
    if dots == 0 {
        assert(all_digits(bytes, lo, n + 1));
    } else {
        let g = run_start(bytes, n);
        assert(all_digits(bytes, g, n + 1));
    }
}

/// A span committed behind the last one keeps the spans in order.
pub proof fn lemma_push_ordered(found: Seq<(int, int)>, span: (int, int))
    requires
        spans_ordered(found),
        frontier(found) <= span.0,
        0 <= span.0 < span.1,
    ensures
        spans_ordered(found.push(span)),
        frontier(found.push(span)) == span.1,
{
    let all = found.push(span);
    assert(all.last() == span);
    assert forall|j: int, k: int| 0 <= j < k < all.len() implies (#[trigger] all[j]).1 <= (
    #[trigger] all[k]).0 by {
        if k < found.len() {
            assert(all[j] == found[j] && all[k] == found[k]);
        } else {
            assert(all[j] == found[j]);
            if j < found.len() - 1 {
                assert(found[j].1 <= found.last().0);
            }
        }
    }
    assert forall|k: int| 0 <= k < all.len() implies 0 <= (#[trigger] all[k]).0 < all[k].1 by {
        if k < found.len() {
            assert(all[k] == found[k]);
        }
    }
}

/// A dotted quad committed behind the last span keeps the spans in order and
/// dotted quads all.
proof fn lemma_push_quad(bytes: Seq<u8>, found: Seq<(int, int)>, span: (int, int))
    requires
        spans_ordered(found),
        frontier(found) <= span.0,
        0 <= span.0 < span.1,
        is_dotted_quad(bytes, span.0, span.1),
        forall|k: int|
            0 <= k < found.len() ==> is_dotted_quad(bytes, (#[trigger] found[k]).0, found[k].1),
    ensures
        spans_ordered(found.push(span)),
        frontier(found.push(span)) == span.1,
        forall|k: int|
            0 <= k < found.push(span).len() ==> is_dotted_quad(
                bytes,
                (#[trigger] found.push(span)[k]).0,
                found.push(span)[k].1,
            ),
{
    lemma_push_ordered(found, span);
    let all = found.push(span);
    assert forall|k: int| 0 <= k < all.len() implies is_dotted_quad(
        bytes,
        (#[trigger] all[k]).0,
        all[k].1,
    ) by {
        if k < found.len() {
            assert(all[k] == found[k]);
        }
    }
}

/// One step of the scanner keeps the invariant.
proof fn lemma_ipv4_step(bytes: Seq<u8>, n: int)
    requires
        0 <= n < bytes.len(),
        ipv4_inv(bytes, n, ipv4_scan(bytes, n), ipv4_found(bytes, n)),
    ensures
        ipv4_inv(bytes, n + 1, ipv4_scan(bytes, n + 1), ipv4_found(bytes, n + 1)),
{
    let t = ipv4_scan(bytes, n);
    let found = ipv4_found(bytes, n);
    let c = bytes[n];
    let t2 = ipv4_scan(bytes, n + 1);
    let found2 = ipv4_found(bytes, n + 1);
    assert(t2 == ipv4_step(t, n, c));
    assert(found2 == match ipv4_emit(t, n, c) {
        Some(span) => found.push(span),
        None => found,
    });
    if ipv4_emit(t, n, c) is Some {
        lemma_dotted_ends(bytes, t.start, n, 3);
        lemma_dotted_three_is_quad(bytes, t.start, n);
        lemma_push_quad(bytes, found, (t.start, n));
    }
    match t.state {
        IPv4State::Any => {
            if is_digit(c) {
                assert(dec_value(bytes, n, n + 1) == dec_value(bytes, n, n) * 10 + digit_value(c));
                assert(all_digits(bytes, n, n + 1));
            }
        },
        IPv4State::Digit => {
            lemma_dotted_ends(bytes, t.start, n, t.dot_count);
            let g = group_start(bytes, n, t);
            if is_digit(c) {
                let grown = t.number * 10 + digit_value(c);
                if grown <= 255 {
                    lemma_dotted_grow(bytes, t.start, n, t.dot_count);
                    assert(dec_value(bytes, g, n + 1) == dec_value(bytes, g, n) * 10 + digit_value(
                        c,
                    ));
                } else if t.dot_count == 3 {
                    assert(dec_value(bytes, n, n + 1) == dec_value(bytes, n, n) * 10 + digit_value(
                        c,
                    ));
                    assert(all_digits(bytes, n, n + 1));
                } else {
                    // the candidate shrinks to the last digit read and this one
                    let last = digit_value(bytes[n - 1]);
                    if t.dot_count == 0 {
                    } else {
                        lemma_run_start_bounds(bytes, n);
                    }
                    assert(g < n);
                    assert(dec_value(bytes, g, n) == dec_value(bytes, g, n - 1) * 10 + last);
                    assert(dec_value(bytes, n - 1, n + 1) == dec_value(bytes, n - 1, n) * 10
                        + digit_value(c));
                    assert(dec_value(bytes, n - 1, n) == dec_value(bytes, n - 1, n - 1) * 10 + last);
                    assert(dec_value(bytes, n - 1, n + 1) == last * 10 + digit_value(c));
                    let high = dec_value(bytes, g, n - 1);
                    assert(grown == high * 100 + (last * 10 + digit_value(c)));
                    assert(grown % 100 == last * 10 + digit_value(c)) by {
                        lemma_dec_value_nonnegative(bytes, g, n - 1);
                        assert((high * 100 + (last * 10 + digit_value(c))) % 100 == last * 10
                            + digit_value(c)) by (nonlinear_arith)
                            requires
                                0 <= high,
                                0 <= last * 10 + digit_value(c) < 100,
                        ;
                    }
                    assert(all_digits(bytes, n - 1, n + 1));
                }
            } else if is_dot(c) && t.dot_count != 3 {
            } else {
            }
        },
        IPv4State::Dot => {
            if is_digit(c) {
                lemma_dotted_ends(bytes, t.start, n - 1, t.dot_count - 1);
                assert(all_digits(bytes, n, n + 1));
                lemma_run_start_after_break(bytes, n, n + 1);
                assert(dec_value(bytes, n, n + 1) == dec_value(bytes, n, n) * 10 + digit_value(c));
            }
        },
    }
}

proof fn lemma_dec_value_nonnegative(bytes: Seq<u8>, lo: int, hi: int)
    requires
        all_digits(bytes, lo, hi),
    ensures
        0 <= dec_value(bytes, lo, hi),
    decreases hi - lo,
{
    if lo < hi {
        lemma_dec_value_nonnegative(bytes, lo, hi - 1);
    }
}

/// The invariant holds after every prefix of the input.
pub proof fn lemma_ipv4_inv(bytes: Seq<u8>, n: int)
    requires
        0 <= n <= bytes.len(),
    ensures
        ipv4_inv(bytes, n, ipv4_scan(bytes, n), ipv4_found(bytes, n)),
    decreases n,
{
    if n > 0 {
        lemma_ipv4_inv(bytes, n - 1);
        lemma_ipv4_step(bytes, n - 1);
    }
}

/// Every span that the scanner recognises is a dotted quad of octets, and the
/// spans come in order without overlapping.
pub proof fn lemma_ipv4_matches_are_quads(bytes: Seq<u8>)
    ensures
        spans_ordered(ipv4_matches(bytes)),
        frontier(ipv4_matches(bytes)) <= bytes.len(),
        forall|k: int|
            0 <= k < ipv4_matches(bytes).len() ==> is_dotted_quad(
                bytes,
                (#[trigger] ipv4_matches(bytes)[k]).0,
                ipv4_matches(bytes)[k].1,
            ),
{
    let n = bytes.len() as int;
    lemma_ipv4_inv(bytes, n);
    let t = ipv4_scan(bytes, n);
    let found = ipv4_found(bytes, n);
    if ipv4_pending(t) {
        lemma_dotted_ends(bytes, t.start, n, 3);
        lemma_dotted_three_is_quad(bytes, t.start, n);
        lemma_push_quad(bytes, found, (t.start, n));
    }
}

} // verus!
