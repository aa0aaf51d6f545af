//! The single-pass scanner: one finite-state machine for IPv4 addresses and one
//! for IPv6 addresses, each reading the input's bytes once from left to right.

use vstd::prelude::*;
use vstd::string::StringSliceAdditionalSpecFns;
use vstd::utf8::{encode_utf8, encode_utf8_valid_utf8, valid_utf8};
use crate::assembler::{
    contiguous, cut_at_characters, depicts, fits, layout, lemma_layout_is_contiguous,
    lemma_layout_spells_text, none_plain, plain_apart, spelled, tokens_of, Segment,
};
use crate::geo::geodb::GeoDB;
use crate::ipv4::{
    ipv4_found, ipv4_matches, ipv4_scan, is_digit, is_dot, is_dotted_quad, is_octet,
    lemma_ipv4_inv, lemma_ipv4_matches_are_quads, spans_ordered, IPv4State, Ipv4Scan, DIGIT_NINE,
    DIGIT_ZERO, DOT,
};
use crate::ipv6::{
    ipv6_found, ipv6_idle, ipv6_matches, ipv6_scan, is_colon, is_hex, is_hex_colon_run,
    lemma_ipv6_inv, lemma_ipv6_matches_are_runs, trim_colons, IPv6State, Ipv6Scan, COLON, LOWER_A,
    LOWER_F, UPPER_A, UPPER_F,
};
use crate::parser::Parser;
use crate::pipeline::{
    lemma_accepted_fit, lemma_in_turn_is_apart, lemma_tagged_fit, precedence_kept,
    spans_fit, tag_spans, tagged, tokens_from_candidates,
};
use crate::resolver::{all_nonempty, resolve, sort_by_start, top_ranked_apart, Candidate};
use crate::span::{lemma_spans_view_push, spans_view};
use crate::text::{is_cut, lemma_ascii_byte_between_cuts};
use crate::token::{TokenKind, TokenView};
use crate::NaliText;

verus! {

struct IPv4Token {
    last_state: IPv4State,
    dot_count: u8,
    current_number: u32,
    start: usize,
}

impl View for IPv4Token {
    type V = Ipv4Scan;

    closed spec fn view(&self) -> Ipv4Scan {
        Ipv4Scan {
            state: self.last_state,
            dot_count: self.dot_count as int,
            number: self.current_number as int,
            start: self.start as int,
        }
    }
}

struct IPv6Token {
    last_state: IPv6State,
    colon_count: u8,
    has_double_colon: bool,
    group_len: u8,
    start: usize,
}

impl View for IPv6Token {
    type V = Ipv6Scan;

    closed spec fn view(&self) -> Ipv6Scan {
        Ipv6Scan {
            state: self.last_state,
            colon_count: self.colon_count as int,
            has_double_colon: self.has_double_colon,
            group_len: self.group_len as int,
            start: self.start as int,
        }
    }
}

impl IPv6Token {
    fn idle() -> (t: Self)
        ensures
            t@ == ipv6_idle(),
    {
        IPv6Token {
            last_state: IPv6State::Any,
            colon_count: 0,
            has_double_colon: false,
            group_len: 0,
            start: 0,
        }
    }
}

#[derive(Default)]
pub struct FastParser {}

impl FastParser {
    /// The spans of `input` that look like dotted-quad IPv4 addresses, as byte
    /// offsets, in the order in which they occur.
    pub fn match_ipv4(&self, input: &str) -> (matches: Vec<(usize, usize)>)
        ensures
            spans_view(matches@) == ipv4_matches(input.spec_bytes()),
            spans_ordered(spans_view(matches@)),
            spans_fit(input.spec_bytes(), spans_view(matches@)),
            forall|k: int|
                0 <= k < matches@.len() ==> is_dotted_quad(
                    input.spec_bytes(),
                    (#[trigger] matches@[k]).0 as int,
                    matches@[k].1 as int,
                ),
    {
        let bytes = input.as_bytes();
        let mut matches: Vec<(usize, usize)> = Vec::new();
        let mut v4_token = IPv4Token {
            last_state: IPv4State::Any,
            dot_count: 0,
            current_number: 0,
            start: 0,
        };
        let mut i: usize = 0;
        assert(spans_view(matches@) =~= ipv4_found(bytes@, 0));

        while i < bytes.len()
            invariant
                i <= bytes@.len(),
                v4_token@ == ipv4_scan(bytes@, i as int),
                spans_view(matches@) == ipv4_found(bytes@, i as int),
            decreases bytes@.len() - i,
        {
            proof {
                lemma_ipv4_inv(bytes@, i as int);
            }
            let ghost before = matches@;
            let c = bytes[i];
            let is_digit = DIGIT_ZERO <= c && c <= DIGIT_NINE;

            match v4_token.last_state {
                IPv4State::Any => {
                    if is_digit {
                        // a new candidate might start here
                        v4_token.start = i;
                        v4_token.last_state = IPv4State::Digit;
                        v4_token.dot_count = 0;
                        v4_token.current_number = (c - DIGIT_ZERO) as u32;
                    } else {
                        v4_token.dot_count = 0;
                        v4_token.current_number = 0;
                        v4_token.start = 0;
                    }
                },
                IPv4State::Digit => {
                    if is_digit {
                        let current_number: u32 = v4_token.current_number * 10 + (c - DIGIT_ZERO) as u32;
                        if current_number > 255 {
                            if v4_token.dot_count == 3 {
                                // the candidate is complete: commit it, and
                                // begin the next one at this digit
                                matches.push((v4_token.start, i));
                                v4_token.start = i;
                                v4_token.dot_count = 0;
                                v4_token.current_number = (c - DIGIT_ZERO) as u32;
                            } else {
                                // keep the last digit read and this one
                                v4_token.dot_count = 0;
                                v4_token.start = i - 1;
                                v4_token.current_number = current_number % 100;
                            }
                        } else {
                            v4_token.current_number = current_number;
                        }
                    } else if c == DOT && v4_token.dot_count != 3 {
                        v4_token.dot_count += 1;
                        v4_token.last_state = IPv4State::Dot;
                    } else {
                        if v4_token.dot_count == 3 {
                            matches.push((v4_token.start, i));
                        }
                        v4_token.last_state = IPv4State::Any;
                        v4_token.dot_count = 0;
                        v4_token.current_number = 0;
                        v4_token.start = 0;
                    }
                },
                IPv4State::Dot => {
                    if is_digit {
                        v4_token.last_state = IPv4State::Digit;
                        v4_token.current_number = (c - DIGIT_ZERO) as u32;
                    } else {
                        v4_token.last_state = IPv4State::Any;
                        v4_token.dot_count = 0;
                        v4_token.current_number = 0;
                        v4_token.start = 0;
                    }
                },
            }
            proof {
                if matches@.len() > before.len() {
                    lemma_spans_view_push(before, matches@.last());
                    assert(matches@ =~= before.push(matches@.last()));
                }
            }

            i += 1;
        }

        if v4_token.dot_count == 3 && v4_token.last_state == IPv4State::Digit {
            proof {
                lemma_spans_view_push(matches@, (v4_token.start, i));
            }
            matches.push((v4_token.start, bytes.len()));
        }
        proof {
            encode_utf8_valid_utf8(input@);
            lemma_ipv4_matches_are_quads(bytes@);
            lemma_ipv4_matches_fit(bytes@);
            assert forall|k: int| 0 <= k < matches@.len() implies is_dotted_quad(
                bytes@,
                (#[trigger] matches@[k]).0 as int,
                matches@[k].1 as int,
            ) by {
                assert(spans_view(matches@)[k] == (matches@[k].0 as int, matches@[k].1 as int));
            }
        }
        matches
    }

    /// The spans of `input` that look like IPv6 addresses, as byte offsets, in
    /// the order in which they occur.
    pub fn match_ipv6(&self, input: &str) -> (matches: Vec<(usize, usize)>)
        ensures
            spans_view(matches@) == ipv6_matches(input.spec_bytes()),
            spans_ordered(spans_view(matches@)),
            spans_fit(input.spec_bytes(), spans_view(matches@)),
            forall|k: int|
                0 <= k < matches@.len() ==> is_hex_colon_run(
                    input.spec_bytes(),
                    (#[trigger] matches@[k]).0 as int,
                    matches@[k].1 as int,
                ),
    {
        let bytes = input.as_bytes();
        let mut matches: Vec<(usize, usize)> = Vec::new();
        let mut v6_token = IPv6Token::idle();
        let mut i: usize = 0;
        assert(spans_view(matches@) =~= ipv6_found(bytes@, 0));

        while i < bytes.len()
            invariant
                i <= bytes@.len(),
                v6_token@ == ipv6_scan(bytes@, i as int),
                spans_view(matches@) == ipv6_found(bytes@, i as int),
            decreases bytes@.len() - i,
        {
            proof {
                lemma_ipv6_inv(bytes@, i as int);
            }
            let ghost before = matches@;
            let c = bytes[i];
            let is_hex = (DIGIT_ZERO <= c && c <= DIGIT_NINE) || (LOWER_A <= c && c <= LOWER_F) || (
            UPPER_A <= c && c <= UPPER_F);
            let is_colon = c == COLON;
            let pending = v6_token.has_double_colon || v6_token.colon_count == 7;

            match v6_token.last_state {
                IPv6State::Any => {
                    if is_hex {
                        // a new candidate might start here
                        v6_token = IPv6Token::idle();
                        v6_token.start = i;
                        v6_token.last_state = IPv6State::Hex;
                        v6_token.group_len = 1;
                    } else {
                        v6_token = IPv6Token::idle();
                    }
                },
                IPv6State::Hex => {
                    if is_hex {
                        if v6_token.group_len >= 4 {
                            // the group is full
                            if pending {
                                matches.push((v6_token.start, i));
                                v6_token = IPv6Token::idle();
                            } else {
                                // keep the last three digits read
                                v6_token.group_len = 3;
                                v6_token.start = i - 3;
                                v6_token.has_double_colon = false;
                                v6_token.colon_count = 0;
                            }
                        } else {
                            v6_token.group_len += 1;
                        }
                    } else if is_colon {
                        if (v6_token.has_double_colon && v6_token.colon_count == 6)
                            || v6_token.colon_count == 7 {
                            matches.push((v6_token.start, i));
                            v6_token = IPv6Token::idle();
                        } else {
                            v6_token.colon_count += 1;
                            v6_token.last_state = IPv6State::Colon;
                        }
                    } else {
                        if pending {
                            matches.push((v6_token.start, i));
                        }
                        v6_token = IPv6Token::idle();
                    }
                },
                IPv6State::Colon => {
                    if is_hex {
                        v6_token.last_state = IPv6State::Hex;
                        v6_token.group_len = 1;
                    } else if is_colon {
                        if v6_token.has_double_colon {
                            // a second double colon
                            matches.push((v6_token.start, i - 1));
                            v6_token = IPv6Token::idle();
                        } else {
                            v6_token.has_double_colon = true;
                        }
                    } else {
                        if v6_token.has_double_colon {
                            matches.push((v6_token.start, i));
                        }
                        v6_token = IPv6Token::idle();
                    }
                },
            }
            proof {
                if matches@.len() > before.len() {
                    lemma_spans_view_push(before, matches@.last());
                    assert(matches@ =~= before.push(matches@.last()));
                }
            }

            i += 1;
        }

        if v6_token.has_double_colon || v6_token.colon_count == 7 {
            // leave out the colons that the input ends in
            let mut last_non_colon: usize = bytes.len();
            while last_non_colon > 0 && bytes[last_non_colon - 1] == COLON
                invariant
                    last_non_colon <= bytes@.len(),
                    trim_colons(bytes@, last_non_colon as int) == trim_colons(
                        bytes@,
                        bytes@.len() as int,
                    ),
                decreases last_non_colon,
            {
                last_non_colon -= 1;
            }
            proof {
                lemma_spans_view_push(matches@, (v6_token.start, last_non_colon));
            }
            matches.push((v6_token.start, last_non_colon));
        }
        proof {
            encode_utf8_valid_utf8(input@);
            lemma_ipv6_matches_are_runs(bytes@);
            lemma_ipv6_matches_fit(bytes@);
            assert forall|k: int| 0 <= k < matches@.len() implies is_hex_colon_run(
                bytes@,
                (#[trigger] matches@[k]).0 as int,
                matches@[k].1 as int,
            ) by {
                assert(spans_view(matches@)[k] == (matches@[k].0 as int, matches@[k].1 as int));
            }
        }
        matches
    }
}

/// What the scanner makes of a text: the candidates of both machines, IPv4
/// first.
pub open spec fn fast_candidates(bytes: Seq<u8>) -> Seq<Candidate> {
    tagged(ipv4_matches(bytes), TokenKind::IPv4) + tagged(ipv6_matches(bytes), TokenKind::IPv6)
}

/// The segments that the scanner divides a text into.
pub open spec fn fast_layout(bytes: Seq<u8>) -> Seq<Segment> {
    layout(resolve(sort_by_start(fast_candidates(bytes))), bytes.len() as int)
}

/// The spans that the IPv4 machine recognises in a text can be cut out of it.
pub proof fn lemma_ipv4_matches_fit(bytes: Seq<u8>)
    requires
        valid_utf8(bytes),
    ensures
        spans_fit(bytes, ipv4_matches(bytes)),
{
    lemma_ipv4_matches_are_quads(bytes);
    let spans = ipv4_matches(bytes);
    assert forall|k: int| 0 <= k < spans.len() implies {
        &&& 0 <= (#[trigger] spans[k]).0 < spans[k].1 <= bytes.len()
        &&& is_cut(bytes, spans[k].0)
        &&& is_cut(bytes, spans[k].1)
    } by {
        let (s, e) = spans[k];
        assert(is_dotted_quad(bytes, s, e));
        let (a, b, c) = choose|a: int, b: int, c: int|
            {
                &&& is_octet(bytes, s, a)
                &&& is_dot(bytes[a])
                &&& #[trigger] is_octet(bytes, a + 1, b)
                &&& is_dot(bytes[b])
                &&& #[trigger] is_octet(bytes, b + 1, c)
                &&& is_dot(bytes[c])
                &&& is_octet(bytes, c + 1, e)
            };
        assert(is_digit(bytes[s]));
        assert(is_digit(bytes[e - 1]));
        lemma_ascii_byte_between_cuts(bytes, s);
        lemma_ascii_byte_between_cuts(bytes, e - 1);
    }
}

/// The spans that the IPv6 machine recognises in a text can be cut out of it.
pub proof fn lemma_ipv6_matches_fit(bytes: Seq<u8>)
    requires
        valid_utf8(bytes),
    ensures
        spans_fit(bytes, ipv6_matches(bytes)),
{
    lemma_ipv6_matches_are_runs(bytes);
    let spans = ipv6_matches(bytes);
    assert forall|k: int| 0 <= k < spans.len() implies {
        &&& 0 <= (#[trigger] spans[k]).0 < spans[k].1 <= bytes.len()
        &&& is_cut(bytes, spans[k].0)
        &&& is_cut(bytes, spans[k].1)
    } by {
        let (s, e) = spans[k];
        assert(is_hex_colon_run(bytes, s, e));
        assert(is_hex(bytes[e - 1]) || is_colon(bytes[e - 1]));
        lemma_ascii_byte_between_cuts(bytes, s);
        lemma_ascii_byte_between_cuts(bytes, e - 1);
    }
}

/// The candidates of the scanner are non-empty and fit the text.
pub proof fn lemma_fast_candidates_fit(bytes: Seq<u8>)
    requires
        valid_utf8(bytes),
        bytes.len() <= usize::MAX,
    ensures
        all_nonempty(fast_candidates(bytes)),
        fits(bytes, fast_candidates(bytes)),
{
    lemma_ipv4_matches_fit(bytes);
    lemma_ipv6_matches_fit(bytes);
    lemma_tagged_fit(bytes, ipv4_matches(bytes), TokenKind::IPv4);
    lemma_tagged_fit(bytes, ipv6_matches(bytes), TokenKind::IPv6);
    let v4 = tagged(ipv4_matches(bytes), TokenKind::IPv4);
    let v6 = tagged(ipv6_matches(bytes), TokenKind::IPv6);
    let all = fast_candidates(bytes);
    assert forall|k: int| 0 <= k < all.len() implies (#[trigger] all[k]).start < all[k].end
        && is_cut(bytes, all[k].start as int) && is_cut(bytes, all[k].end as int) by {
        if k < v4.len() {
            assert(all[k] == v4[k]);
        } else {
            assert(all[k] == v6[k - v4.len()]);
        }
    }
}

/// The IPv4 candidates of the scanner keep clear of each other.
pub proof fn lemma_fast_candidates_apart(bytes: Seq<u8>)
    requires
        valid_utf8(bytes),
        bytes.len() <= usize::MAX,
    ensures
        top_ranked_apart(fast_candidates(bytes)),
{
    lemma_ipv4_matches_are_quads(bytes);
    lemma_ipv4_matches_fit(bytes);
    let spans = ipv4_matches(bytes);
    let top = tagged(spans, TokenKind::IPv4);
    assert forall|j: int, k: int| 0 <= j < k < top.len() implies (#[trigger] top[j]).end <= (
    #[trigger] top[k]).start by {
        assert(spans[j].1 <= spans[k].0);
        assert(0 <= spans[j].0 < spans[j].1 <= bytes.len());
        assert(0 <= spans[k].0 < spans[k].1 <= bytes.len());
    }
    lemma_in_turn_is_apart(top, tagged(ipv6_matches(bytes), TokenKind::IPv6));
}

/// The segments that the scanner divides a text into cover the text without a
/// gap, in order, and each begins and ends between two characters.
pub proof fn lemma_fast_layout_covers(bytes: Seq<u8>)
    requires
        valid_utf8(bytes),
        bytes.len() <= usize::MAX,
    ensures
        contiguous(fast_layout(bytes), bytes.len() as int),
        cut_at_characters(bytes, fast_layout(bytes)),
{
    lemma_fast_candidates_fit(bytes);
    lemma_accepted_fit(bytes, fast_candidates(bytes));
    lemma_layout_is_contiguous(bytes, resolve(sort_by_start(fast_candidates(bytes))));
}

/// Round trip for the scanner: whatever tokens depict the scanner's segments
/// of a text spell that text.
pub proof fn lemma_fast_tokens_spell_text(tokens: Seq<TokenView>, text: Seq<char>)
    requires
        encode_utf8(text).len() <= usize::MAX,
        depicts(tokens, encode_utf8(text), fast_layout(encode_utf8(text))),
    ensures
        spelled(tokens) == text,
{
    let bytes = encode_utf8(text);
    encode_utf8_valid_utf8(text);
    lemma_fast_candidates_fit(bytes);
    lemma_accepted_fit(bytes, fast_candidates(bytes));
    lemma_layout_spells_text(tokens, text, resolve(sort_by_start(fast_candidates(bytes))));
}

impl<G: GeoDB> Parser<G> for FastParser {
    /// The tokens of `input` as the two machines see it: their candidates,
    /// sorted and reconciled, with plain text in between. The tokens cover the
    /// input without a gap and spell it.
    fn parse(&self, input: &str, db: &G) -> (text: NaliText)
        ensures
            text@ == tokens_of(input.spec_bytes(), fast_layout(input.spec_bytes()), db),
            contiguous(fast_layout(input.spec_bytes()), input.spec_bytes().len() as int),
            cut_at_characters(input.spec_bytes(), fast_layout(input.spec_bytes())),
            precedence_kept(fast_candidates(input.spec_bytes()), fast_layout(input.spec_bytes())),
            plain_apart(fast_layout(input.spec_bytes())),
    {
        let ghost bytes = input.spec_bytes();
        proof {
            encode_utf8_valid_utf8(input@);
        }
        let ipv4_matches = self.match_ipv4(input);
        let ipv6_matches = self.match_ipv6(input);
        let mut matches: Vec<Candidate> = Vec::new();
        tag_spans(&mut matches, &ipv4_matches, TokenKind::IPv4);
        tag_spans(&mut matches, &ipv6_matches, TokenKind::IPv6);
        assert(matches@ =~= fast_candidates(bytes));
        assert(none_plain(matches@)) by {
            let v4 = tagged(spans_view(ipv4_matches@), TokenKind::IPv4);
            assert forall|k: int| 0 <= k < matches@.len() implies (#[trigger] matches@[k]).kind
                != TokenKind::Plain by {
                if k < v4.len() {
                    assert(matches@[k] == v4[k]);
                } else {
                    assert(matches@[k] == tagged(spans_view(ipv6_matches@), TokenKind::IPv6)[k
                        - v4.len()]);
                }
            }
        }

        let len: usize = input.as_bytes().len();
        proof {
            assert(bytes.len() == len);
            lemma_fast_candidates_fit(bytes);
            lemma_fast_candidates_apart(bytes);
        }
        tokens_from_candidates(input, &matches, db)
    }

    open spec fn label(&self) -> Seq<char> {
        "fast"@
    }

    fn name(&self) -> (name: &str) {
        "fast"
    }
}

} // verus!
