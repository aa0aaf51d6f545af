//! Extraction of IPv4 addresses, IPv6 addresses and domain names from free-form
//! text, as an ordered token stream that reproduces the input exactly.

use vstd::prelude::*;
use vstd::string::StringExecFns;
use geo::geodb::place_label;

pub mod assembler;
pub mod config;
pub mod fast_parser;
pub mod geo;
pub mod ipv4;
pub mod ipv6;
pub mod paint;
pub mod parser;
pub mod pipeline;
pub mod regex_parser;
pub mod resolver;
pub mod span;
pub mod text;
pub mod token;

pub use fast_parser::FastParser;
pub use parser::Parser;
pub use regex_parser::RegexParser;
pub use token::Token;
pub use token::TokenKind;
pub use token::TokenView;

verus! {

/// The outcome of parsing one text: its tokens in order.
#[derive(Debug, Clone, PartialEq)]
pub struct NaliText {
    tokens: Vec<Token>,
}

impl View for NaliText {
    type V = Seq<TokenView>;

    closed spec fn view(&self) -> Seq<TokenView> {
        assembler::tokens_view(self.tokens@)
    }
}

impl NaliText {
    pub fn new(tokens: Vec<Token>) -> (text: Self)
        ensures
            text@ == assembler::tokens_view(tokens@),
    {
        Self { tokens }
    }

    pub fn tokens(&self) -> (tokens: &[Token])
        ensures
            assembler::tokens_view(tokens@) == self@,
    {
        self.tokens.as_slice()
    }

    /// The text for a terminal: plain text as it is, addresses and domains in
    /// colour, each address followed in square brackets by its location, or by
    /// the marker for an unknown one, in red. Whether colours are on is the
    /// terminal's affair: the result is the tokens shown one after the other,
    /// each with its own text and location as they come back painted.
    pub fn colorize(&self) -> (shown: String)
        ensures
            exists|painted: Seq<Seq<char>>, places: Seq<Seq<char>>|
                {
                    &&& shown@ == #[trigger] shown_upto(self@, painted, places, self@.len() as int)
                    &&& painted.len() == self@.len()
                    &&& places.len() == self@.len()
                    &&& forall|k: int|
                        0 <= k < self@.len() ==> (#[trigger] self@[k]).painted_by(
                            painted[k],
                            places[k],
                        )
                },
    {
        let mut shown = String::new();
        let ghost mut painted: Seq<Seq<char>> = Seq::empty();
        let ghost mut places: Seq<Seq<char>> = Seq::empty();
        let mut k: usize = 0;
        while k < self.tokens.len()
            invariant
                k <= self.tokens@.len(),
                painted.len() == k,
                places.len() == k,
                shown@ == shown_upto(self@, painted, places, k as int),
                forall|j: int| 0 <= j < k ==> (#[trigger] self@[j]).painted_by(painted[j], places[j]),
            decreases self.tokens@.len() - k,
        {
            let token = &self.tokens[k];
            let (ink, place) = match token {
                Token::Plain(_) => (String::new(), String::new()),
                Token::IPv4(addr, geo) => (paint::green(addr.as_str()), paint::red(place_label(geo))),
                Token::IPv6(addr, geo) => (paint::blue(addr.as_str()), paint::red(place_label(geo))),
                Token::Domain(domain) => (paint::yellow(domain.as_str()), String::new()),
            };
            let part = token.show(ink.as_str(), place.as_str());
            proof {
                lemma_shown_upto_extend(self@, painted, places, k as int, ink@, place@);
                painted = painted.push(ink@);
                places = places.push(place@);
            }
            shown.append(part.as_str());
            k += 1;
        }
        assert(shown@ == shown_upto(self@, painted, places, self@.len() as int));
        shown
    }

    /// The text as a listing: every token as `Token::to_string` gives it, one
    /// after the other.
    pub fn to_string(&self) -> (listing: String)
        ensures
            listing@ == rendered_upto(self@, self@.len() as int),
    {
        let mut listing = String::new();
        let mut k: usize = 0;
        while k < self.tokens.len()
            invariant
                k <= self.tokens@.len(),
                listing@ == rendered_upto(self@, k as int),
            decreases self.tokens@.len() - k,
        {
            let line = self.tokens[k].to_string();
            listing.append(line.as_str());
            k += 1;
        }
        listing
    }
}

/// The first `n` tokens as a listing.
pub open spec fn rendered_upto(tokens: Seq<TokenView>, n: int) -> Seq<char>
    decreases n,
{
    if n <= 0 {
        Seq::empty()
    } else {
        rendered_upto(tokens, n - 1) + tokens[n - 1].rendered()
    }
}

/// The first `n` tokens as shown on a terminal, token `k` with the painted
/// text `painted[k]` and the painted location `places[k]`.
pub open spec fn shown_upto(
    tokens: Seq<TokenView>,
    painted: Seq<Seq<char>>,
    places: Seq<Seq<char>>,
    n: int,
) -> Seq<char>
    decreases n,
{
    if n <= 0 {
        Seq::empty()
    } else {
        shown_upto(tokens, painted, places, n - 1) + tokens[n - 1].shown(
            painted[n - 1],
            places[n - 1],
        )
    }
}

/// What is shown of the first `n` tokens does not depend on the paint of the
/// tokens behind them.
proof fn lemma_shown_upto_extend(
    tokens: Seq<TokenView>,
    painted: Seq<Seq<char>>,
    places: Seq<Seq<char>>,
    n: int,
    ink: Seq<char>,
    place: Seq<char>,
)
    requires
        0 <= n <= painted.len(),
        n <= places.len(),
    ensures
        shown_upto(tokens, painted.push(ink), places.push(place), n) == shown_upto(
            tokens,
            painted,
            places,
            n,
        ),
        n == painted.len() && n == places.len() ==> shown_upto(
            tokens,
            painted.push(ink),
            places.push(place),
            n + 1,
        ) == shown_upto(tokens, painted, places, n) + tokens[n].shown(ink, place),
    decreases n,
{
    if n > 0 {
        lemma_shown_upto_extend(tokens, painted, places, n - 1, ink, place);
        assert(painted.push(ink)[n - 1] == painted[n - 1]);
        assert(places.push(place)[n - 1] == places[n - 1]);
    }
    if n == painted.len() && n == places.len() {
        assert(painted.push(ink)[n] == ink);
        assert(places.push(place)[n] == place);
        assert(shown_upto(tokens, painted.push(ink), places.push(place), n + 1) == shown_upto(
            tokens,
            painted.push(ink),
            places.push(place),
            n,
        ) + tokens[n].shown(painted.push(ink)[n], places.push(place)[n]));
    }
}

} // verus!
