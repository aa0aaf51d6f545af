//! The pattern-matching strategy: three regular expressions, one each for IPv4
//! addresses, IPv6 addresses and domain names, searched over the whole input.
//! The expressions are compiled once, when the parser is made.

use vstd::prelude::*;
use vstd::string::StringSliceAdditionalSpecFns;
use vstd::utf8::{encode_utf8, encode_utf8_valid_utf8};
use crate::assembler::{
    contiguous, cut_at_characters, depicts, fits, layout, lemma_layout_is_contiguous,
    lemma_layout_spells_text, plain_apart, spelled, tokens_of, Segment,
};
use crate::geo::geodb::GeoDB;
use crate::pipeline::{
    lemma_accepted_fit, lemma_in_turn_is_apart, precedence_kept, tag_spans, tagged,
    tokens_from_candidates,
};
use crate::resolver::{all_nonempty, resolve, sort_by_start, top_ranked_apart, Candidate};
use crate::span::spans_view;
use crate::text::is_cut;
use crate::token::{TokenKind, TokenView};
use crate::NaliText;

verus! {

/// Dotted quads whose groups are decimal numbers from 0 to 255.
pub const IPV4_PATTERN: &'static str =
    r"(25[0-5]|2[0-4][0-9]|[01]?[0-9][0-9]?)(\.(25[0-5]|2[0-4][0-9]|[01]?[0-9][0-9]?)){3}";

/// Link-local addresses, the full form of eight groups, IPv4-mapped addresses,
/// and forms with a double colon.
pub const IPV6_PATTERN: &'static str =
    r"fe80:(:[0-9a-fA-F]{1,4}){0,4}(%\w+)?|([0-9a-fA-F]{1,4}:){7}[0-9a-fA-F]{1,4}|::[fF]{4}:(25[0-5]|2[0-4][0-9]|[01]?[0-9][0-9]?)(\.(25[0-5]|2[0-4][0-9]|[01]?[0-9][0-9]?)){3}|(([0-9a-fA-F]{1,4}:){0,6}[0-9a-fA-F]{1,4})?::(([0-9a-fA-F]{1,4}:){0,6}[0-9a-fA-F]{1,4})?";

/// Labels separated by dots, the last of them without a digit.
pub const DOMAIN_PATTERN: &'static str =
    r"([a-zA-Z0-9][-a-zA-Z0-9]{0,62}\.)+([a-zA-Z][-a-zA-Z]{0,62})";

#[verifier::external_type_specification]
#[verifier::external_body]
pub struct ExRegex(regex::Regex);

#[verifier::external_type_specification]
#[verifier::external_body]
pub struct ExRegexError(regex::Error);

/// The pattern that was given to `regex::Regex::new` to make a compiled
/// expression. The library makes its expressions in no other way; of an
/// expression that was built otherwise, with options of its own, nothing here
/// holds.
pub uninterp spec fn regex_source(re: regex::Regex) -> Seq<char>;

/// Whether `regex::Regex::new` makes an expression of a pattern: whether the
/// pattern is a regular expression and what it compiles to stays within the
/// regex crate's default size limit.
pub uninterp spec fn regex_compiles(pattern: Seq<char>) -> bool;

/// The matches of a pattern in a text, from left to right, as pairs of byte
/// offsets: what `regex::Regex::find_iter` yields for an expression compiled
/// from the pattern.
pub uninterp spec fn regex_matches(pattern: Seq<char>, haystack: Seq<char>) -> Seq<(usize, usize)>;

/// Why a pattern could not be compiled.
#[derive(Debug, Clone, PartialEq)]
pub enum PatternError {
    /// The pattern is not a regular expression; the message says why.
    Syntax(String),
    /// The compiled expression would exceed the size limit, which is given.
    CompiledTooBig(usize),
    /// Any other reason.
    Other,
}

/// Which of the parser's patterns could not be compiled, and why.
#[derive(Debug, Clone, PartialEq)]
pub struct PatternFailure {
    /// The kind of entity that the pattern is for.
    pub kind: TokenKind,
    pub error: PatternError,
}

/// `regex::Regex::new`: compiles a pattern. Trusted: whether an expression
/// comes back depends on the pattern alone, and the expression that comes back
/// was made from the pattern.
#[verifier::external_body]
fn compile(pattern: &str) -> (compiled: Result<regex::Regex, regex::Error>)
    ensures
        compiled is Ok <==> regex_compiles(pattern@),
        compiled matches Ok(re) ==> regex_source(re) == pattern@,
{
    regex::Regex::new(pattern)
}

/// Tells the variants of `regex::Error` apart.
#[verifier::external_body]
fn classify(error: regex::Error) -> PatternError {
    match error {
        regex::Error::Syntax(message) => PatternError::Syntax(message),
        regex::Error::CompiledTooBig(limit) => PatternError::CompiledTooBig(limit),
        _ => PatternError::Other,
    }
}

/// `regex::Regex::find_iter`: every match of the expression in `haystack`, in
/// order, each as its start and end. Trusted: the result is a function of the
/// pattern and the text, and, as the crate documents, a match does not end
/// before it starts, both its offsets lie between two characters of the text,
/// and successive matches do not overlap.
#[verifier::external_body]
fn find_all(re: &regex::Regex, haystack: &str) -> (spans: Vec<(usize, usize)>)
    ensures
        spans@ == regex_matches(regex_source(*re), haystack@),
        matches_fit(haystack.spec_bytes(), spans@),
        matches_in_turn(spans@),
{
    re.find_iter(haystack).map(|m| (m.start(), m.end())).collect()
}

/// What a compilation came to, in the library's terms: the expression where
/// there is one, else the error told apart.
pub fn pattern_outcome(compiled: Result<regex::Regex, regex::Error>) -> (outcome: Result<
    regex::Regex,
    PatternError,
>)
    ensures
        outcome is Ok <==> compiled is Ok,
        compiled matches Ok(re) ==> outcome == Ok::<regex::Regex, PatternError>(re),
{
    match compiled {
        Ok(re) => Ok(re),
        Err(e) => Err(classify(e)),
    }
}

/// The expression for a pattern, or why there is none: an expression made
/// from `pattern` where the pattern compiles, else the regex crate's error.
pub fn compile_pattern(pattern: &str) -> (compiled: Result<regex::Regex, PatternError>)
    ensures
        compiled is Ok <==> regex_compiles(pattern@),
        compiled matches Ok(re) ==> regex_source(re) == pattern@,
{
    pattern_outcome(compile(pattern))
}

/// The spans that are not empty, in their order.
pub open spec fn nonempty_spans(spans: Seq<(usize, usize)>) -> Seq<(usize, usize)>
    decreases spans.len(),
{
    if spans.len() == 0 {
        Seq::empty()
    } else if spans.last().0 < spans.last().1 {
        nonempty_spans(spans.drop_last()).push(spans.last())
    } else {
        nonempty_spans(spans.drop_last())
    }
}

/// Every span that is kept was there before, and is not empty.
pub proof fn lemma_nonempty_spans(spans: Seq<(usize, usize)>)
    ensures
        forall|k: int|
            0 <= k < nonempty_spans(spans).len() ==> (#[trigger] nonempty_spans(spans)[k]).0
                < nonempty_spans(spans)[k].1 && spans.contains(nonempty_spans(spans)[k]),
    decreases spans.len(),
{
    if spans.len() > 0 {
        let head = spans.drop_last();
        lemma_nonempty_spans(head);
        let out = nonempty_spans(spans);
        assert forall|k: int| 0 <= k < out.len() implies (#[trigger] out[k]).0 < out[k].1
            && spans.contains(out[k]) by {
            if k < nonempty_spans(head).len() {
                assert(out[k] == nonempty_spans(head)[k]);
                let w = choose|w: int| 0 <= w < head.len() && head[w] == out[k];
                assert(spans[w] == out[k]);
            } else {
                assert(out[k] == spans[spans.len() - 1]);
            }
        }
    }
}

/// The spans without those that hold no text.
pub fn drop_empty(spans: &Vec<(usize, usize)>) -> (kept: Vec<(usize, usize)>)
    ensures
        kept@ == nonempty_spans(spans@),
{
    let mut kept: Vec<(usize, usize)> = Vec::new();
    let mut k: usize = 0;
    assert(spans@.take(0) =~= Seq::empty());
    while k < spans.len()
        invariant
            k <= spans@.len(),
            kept@ == nonempty_spans(spans@.take(k as int)),
        decreases spans@.len() - k,
    {
        let (start, end) = spans[k];
        assert(spans@.take(k as int + 1).drop_last() =~= spans@.take(k as int));
        if start < end {
            kept.push((start, end));
        }
        k += 1;
    }
    assert(spans@.take(k as int) =~= spans@);
    kept
}

/// The candidates that the three patterns give for a text, IPv4 first, then
/// IPv6, then domains; `ipv4`, `ipv6` and `domain` are the matches of each.
pub open spec fn candidates_of(
    ipv4: Seq<(usize, usize)>,
    ipv6: Seq<(usize, usize)>,
    domain: Seq<(usize, usize)>,
) -> Seq<Candidate> {
    tagged(spans_view(nonempty_spans(ipv4)), TokenKind::IPv4) + tagged(
        spans_view(nonempty_spans(ipv6)),
        TokenKind::IPv6,
    ) + tagged(spans_view(nonempty_spans(domain)), TokenKind::Domain)
}

/// The candidates that the patterns give for a text.
pub open spec fn regex_candidates(text: Seq<char>) -> Seq<Candidate> {
    candidates_of(
        regex_matches(IPV4_PATTERN@, text),
        regex_matches(IPV6_PATTERN@, text),
        regex_matches(DOMAIN_PATTERN@, text),
    )
}

/// The segments that the patterns divide a text into.
pub open spec fn regex_layout(text: Seq<char>) -> Seq<Segment> {
    layout(resolve(sort_by_start(regex_candidates(text))), encode_utf8(text).len() as int)
}

/// Every match lies between two characters of the text and does not end
/// before it starts.
pub open spec fn matches_fit(bytes: Seq<u8>, spans: Seq<(usize, usize)>) -> bool {
    forall|k: int|
        0 <= k < spans.len() ==> {
            &&& (#[trigger] spans[k]).0 <= spans[k].1
            &&& is_cut(bytes, spans[k].0 as int)
            &&& is_cut(bytes, spans[k].1 as int)
        }
}

/// The matches come one after the other: none begins before an earlier one
/// has ended.
pub open spec fn matches_in_turn(spans: Seq<(usize, usize)>) -> bool {
    forall|j: int, k: int|
        0 <= j < k < spans.len() ==> (#[trigger] spans[j]).1 <= (#[trigger] spans[k]).0
}

/// The candidates made of matches that fit the text are non-empty and fit it.
pub proof fn lemma_candidates_of_fit(
    bytes: Seq<u8>,
    ipv4: Seq<(usize, usize)>,
    ipv6: Seq<(usize, usize)>,
    domain: Seq<(usize, usize)>,
)
    requires
        matches_fit(bytes, ipv4),
        matches_fit(bytes, ipv6),
        matches_fit(bytes, domain),
    ensures
        all_nonempty(candidates_of(ipv4, ipv6, domain)),
        fits(bytes, candidates_of(ipv4, ipv6, domain)),
{
    lemma_nonempty_spans(ipv4);
    lemma_nonempty_spans(ipv6);
    lemma_nonempty_spans(domain);
    let a = tagged(spans_view(nonempty_spans(ipv4)), TokenKind::IPv4);
    let b = tagged(spans_view(nonempty_spans(ipv6)), TokenKind::IPv6);
    let c = tagged(spans_view(nonempty_spans(domain)), TokenKind::Domain);
    let all = candidates_of(ipv4, ipv6, domain);
    assert forall|k: int| 0 <= k < all.len() implies (#[trigger] all[k]).start < all[k].end
        && is_cut(bytes, all[k].start as int) && is_cut(bytes, all[k].end as int) by {
        if k < a.len() {
            assert(all[k] == a[k]);
            let w = choose|w: int| 0 <= w < ipv4.len() && ipv4[w] == nonempty_spans(ipv4)[k];
            assert(is_cut(bytes, ipv4[w].0 as int));
        } else if k < a.len() + b.len() {
            let i = k - a.len();
            assert(all[k] == b[i]);
            let w = choose|w: int| 0 <= w < ipv6.len() && ipv6[w] == nonempty_spans(ipv6)[i];
            assert(is_cut(bytes, ipv6[w].0 as int));
        } else {
            let i = k - a.len() - b.len();
            assert(all[k] == c[i]);
            let w = choose|w: int| 0 <= w < domain.len() && domain[w] == nonempty_spans(domain)[i];
            assert(is_cut(bytes, domain[w].0 as int));
        }
    }
}

/// Matches that come one after the other still do once the empty ones are
/// dropped.
pub proof fn lemma_nonempty_in_turn(spans: Seq<(usize, usize)>)
    requires
        matches_in_turn(spans),
    ensures
        matches_in_turn(nonempty_spans(spans)),
    decreases spans.len(),
{
    if spans.len() > 0 {
        let head = spans.drop_last();
        assert forall|j: int, k: int| 0 <= j < k < head.len() implies (#[trigger] head[j]).1 <= (
        #[trigger] head[k]).0 by {
            assert(spans[j].1 <= spans[k].0);
        }
        lemma_nonempty_in_turn(head);
        lemma_nonempty_spans(head);
        let kept = nonempty_spans(head);
        let out = nonempty_spans(spans);
        assert forall|j: int, k: int| 0 <= j < k < out.len() implies (#[trigger] out[j]).1 <= (
        #[trigger] out[k]).0 by {
            assert(out[j] == kept[j]);
            if k < kept.len() {
                assert(out[k] == kept[k]);
            } else {
                assert(head.contains(kept[j]));
                let w = choose|w: int| 0 <= w < head.len() && head[w] == kept[j];
                assert(spans[w].1 <= spans[spans.len() - 1].0);
            }
        }
    }
}

/// Where the IPv4 matches come one after the other, the IPv4 candidates keep
/// clear of each other.
pub proof fn lemma_candidates_of_apart(
    ipv4: Seq<(usize, usize)>,
    ipv6: Seq<(usize, usize)>,
    domain: Seq<(usize, usize)>,
)
    requires
        matches_in_turn(ipv4),
    ensures
        top_ranked_apart(candidates_of(ipv4, ipv6, domain)),
{
    lemma_nonempty_in_turn(ipv4);
    let kept = nonempty_spans(ipv4);
    let a = tagged(spans_view(kept), TokenKind::IPv4);
    let b = tagged(spans_view(nonempty_spans(ipv6)), TokenKind::IPv6);
    let c = tagged(spans_view(nonempty_spans(domain)), TokenKind::Domain);
    assert forall|j: int, k: int| 0 <= j < k < a.len() implies (#[trigger] a[j]).end <= (
    #[trigger] a[k]).start by {
        assert(kept[j].1 <= kept[k].0);
    }
    assert forall|k: int| 0 <= k < (b + c).len() implies (#[trigger] (b + c)[k]).kind
        != TokenKind::IPv4 by {
        if k < b.len() {
            assert((b + c)[k] == b[k]);
        } else {
            assert((b + c)[k] == c[k - b.len()]);
        }
    }
    lemma_in_turn_is_apart(a, b + c);
    assert(candidates_of(ipv4, ipv6, domain) =~= a + (b + c));
}

/// For matches that fit the text, the segments made of them cover the text
/// without a gap, in order, and each begins and ends between two characters;
/// and whatever tokens depict the segments spell the text.
pub proof fn lemma_layout_of_matches_covers(
    tokens: Seq<TokenView>,
    text: Seq<char>,
    ipv4: Seq<(usize, usize)>,
    ipv6: Seq<(usize, usize)>,
    domain: Seq<(usize, usize)>,
)
    requires
        matches_fit(encode_utf8(text), ipv4),
        matches_fit(encode_utf8(text), ipv6),
        matches_fit(encode_utf8(text), domain),
        depicts(
            tokens,
            encode_utf8(text),
            layout(
                resolve(sort_by_start(candidates_of(ipv4, ipv6, domain))),
                encode_utf8(text).len() as int,
            ),
        ),
    ensures
        contiguous(
            layout(
                resolve(sort_by_start(candidates_of(ipv4, ipv6, domain))),
                encode_utf8(text).len() as int,
            ),
            encode_utf8(text).len() as int,
        ),
        cut_at_characters(
            encode_utf8(text),
            layout(
                resolve(sort_by_start(candidates_of(ipv4, ipv6, domain))),
                encode_utf8(text).len() as int,
            ),
        ),
        spelled(tokens) == text,
{
    let bytes = encode_utf8(text);
    let candidates = candidates_of(ipv4, ipv6, domain);
    encode_utf8_valid_utf8(text);
    lemma_candidates_of_fit(bytes, ipv4, ipv6, domain);
    lemma_accepted_fit(bytes, candidates);
    lemma_layout_is_contiguous(bytes, resolve(sort_by_start(candidates)));
    lemma_layout_spells_text(tokens, text, resolve(sort_by_start(candidates)));
}

/// The tokens for a text, given the matches of each of the three patterns in
/// it: the matches that hold text become candidates, the candidates are sorted
/// and reconciled, and plain text fills the rest.
pub fn tokens_from_matches<G: GeoDB>(
    input: &str,
    ipv4: &Vec<(usize, usize)>,
    ipv6: &Vec<(usize, usize)>,
    domain: &Vec<(usize, usize)>,
    db: &G,
) -> (tokens: NaliText)
    requires
        matches_fit(input.spec_bytes(), ipv4@),
        matches_fit(input.spec_bytes(), ipv6@),
        matches_fit(input.spec_bytes(), domain@),
    ensures
        tokens@ == tokens_of(
            input.spec_bytes(),
            layout(
                resolve(sort_by_start(candidates_of(ipv4@, ipv6@, domain@))),
                input.spec_bytes().len() as int,
            ),
            db,
        ),
        contiguous(
            layout(
                resolve(sort_by_start(candidates_of(ipv4@, ipv6@, domain@))),
                input.spec_bytes().len() as int,
            ),
            input.spec_bytes().len() as int,
        ),
        cut_at_characters(
            input.spec_bytes(),
            layout(
                resolve(sort_by_start(candidates_of(ipv4@, ipv6@, domain@))),
                input.spec_bytes().len() as int,
            ),
        ),
        matches_in_turn(ipv4@) ==> precedence_kept(
            candidates_of(ipv4@, ipv6@, domain@),
            layout(
                resolve(sort_by_start(candidates_of(ipv4@, ipv6@, domain@))),
                input.spec_bytes().len() as int,
            ),
        ),
        plain_apart(
            layout(
                resolve(sort_by_start(candidates_of(ipv4@, ipv6@, domain@))),
                input.spec_bytes().len() as int,
            ),
        ),
        spelled(tokens@) == input@,
{
    let ipv4_kept = drop_empty(ipv4);
    let ipv6_kept = drop_empty(ipv6);
    let domain_kept = drop_empty(domain);
    let mut matches: Vec<Candidate> = Vec::new();
    tag_spans(&mut matches, &ipv4_kept, TokenKind::IPv4);
    tag_spans(&mut matches, &ipv6_kept, TokenKind::IPv6);
    tag_spans(&mut matches, &domain_kept, TokenKind::Domain);
    assert(matches@ =~= candidates_of(ipv4@, ipv6@, domain@));
    proof {
        lemma_candidates_of_fit(input.spec_bytes(), ipv4@, ipv6@, domain@);
        if matches_in_turn(ipv4@) {
            lemma_candidates_of_apart(ipv4@, ipv6@, domain@);
        }
        let a = tagged(spans_view(ipv4_kept@), TokenKind::IPv4);
        let b = tagged(spans_view(ipv6_kept@), TokenKind::IPv6);
        let c = tagged(spans_view(domain_kept@), TokenKind::Domain);
        assert forall|k: int| 0 <= k < matches@.len() implies (#[trigger] matches@[k]).kind
            != TokenKind::Plain by {
            if k < a.len() {
                assert(matches@[k] == a[k]);
            } else if k < a.len() + b.len() {
                assert(matches@[k] == b[k - a.len()]);
            } else {
                assert(matches@[k] == c[k - a.len() - b.len()]);
            }
        }
    }
    tokens_from_candidates(input, &matches, db)
}

/// The kind of the first of the parser's patterns that does not compile, IPv4
/// before IPv6 before domains.
pub open spec fn first_refused() -> TokenKind {
    if !regex_compiles(IPV4_PATTERN@) {
        TokenKind::IPv4
    } else if !regex_compiles(IPV6_PATTERN@) {
        TokenKind::IPv6
    } else {
        TokenKind::Domain
    }
}

pub struct RegexParser<G: GeoDB> {
    db: G,
    ipv4: regex::Regex,
    ipv6: regex::Regex,
    domain: regex::Regex,
}

impl<G: GeoDB> RegexParser<G> {
    #[verifier::type_invariant]
    spec fn compiled_from_patterns(self) -> bool {
        &&& regex_source(self.ipv4) == IPV4_PATTERN@
        &&& regex_source(self.ipv6) == IPV6_PATTERN@
        &&& regex_source(self.domain) == DOMAIN_PATTERN@
    }

    /// The database that this parser looks addresses up in.
    pub closed spec fn database(&self) -> G {
        self.db
    }

    /// A parser that looks addresses up in `db`. The three patterns are
    /// compiled here, once; that they compile is asked of the caller, who can
    /// leave the question to `try_new`.
    pub fn new(db: G) -> (parser: Self)
        requires
            regex_compiles(IPV4_PATTERN@),
            regex_compiles(IPV6_PATTERN@),
            regex_compiles(DOMAIN_PATTERN@),
        ensures
            parser.database() == db,
    {
        let ipv4 = match compile_pattern(IPV4_PATTERN) {
            Ok(re) => re,
            Err(_) => unreached(),
        };
        let ipv6 = match compile_pattern(IPV6_PATTERN) {
            Ok(re) => re,
            Err(_) => unreached(),
        };
        let domain = match compile_pattern(DOMAIN_PATTERN) {
            Ok(re) => re,
            Err(_) => unreached(),
        };
        Self { db, ipv4, ipv6, domain }
    }

    /// A parser that looks addresses up in `db`, if the three patterns
    /// compile; else the first pattern that does not, IPv4 before IPv6 before
    /// domains, with the reason. The patterns are tried here and, once all are
    /// known to compile, compiled for the parser by `new`.
    pub fn try_new(db: G) -> (parser: Result<Self, PatternFailure>)
        ensures
            parser is Ok <==> regex_compiles(IPV4_PATTERN@) && regex_compiles(IPV6_PATTERN@)
                && regex_compiles(DOMAIN_PATTERN@),
            parser matches Ok(p) ==> p.database() == db,
            parser matches Err(failure) ==> failure.kind == first_refused(),
    {
        match compile_pattern(IPV4_PATTERN) {
            Ok(_) => {},
            Err(error) => {
                return Err(PatternFailure { kind: TokenKind::IPv4, error });
            },
        }
        match compile_pattern(IPV6_PATTERN) {
            Ok(_) => {},
            Err(error) => {
                return Err(PatternFailure { kind: TokenKind::IPv6, error });
            },
        }
        match compile_pattern(DOMAIN_PATTERN) {
            Ok(_) => {},
            Err(error) => {
                return Err(PatternFailure { kind: TokenKind::Domain, error });
            },
        }
        Ok(Self::new(db))
    }

    /// The tokens of `input` as the three patterns see it. The tokens cover
    /// the input without a gap and spell it.
    pub fn parse(&self, input: &str) -> (text: NaliText)
        ensures
            text@ == tokens_of(input.spec_bytes(), regex_layout(input@), &self.database()),
            contiguous(regex_layout(input@), input.spec_bytes().len() as int),
            cut_at_characters(input.spec_bytes(), regex_layout(input@)),
            precedence_kept(regex_candidates(input@), regex_layout(input@)),
            plain_apart(regex_layout(input@)),
            spelled(text@) == input@,
    {
        proof {
            use_type_invariant(self);
        }
        let ipv4 = find_all(&self.ipv4, input);
        let ipv6 = find_all(&self.ipv6, input);
        let domain = find_all(&self.domain, input);
        tokens_from_matches(input, &ipv4, &ipv6, &domain, &self.db)
    }

    pub fn name(&self) -> (name: &'static str)
        ensures
            name@ == "regex"@,
    {
        "regex"
    }
}

} // verus!
