use vstd::prelude::*;
use vstd::string::StringExecFns;
use crate::geo::geodb::{location_view, place_text, GeoLocation};
use crate::paint::{tinted, BLUE_ON, GREEN_ON, RED_ON, YELLOW_ON};

verus! {

/// What a token was recognised as.
#[derive(Debug, Clone, Copy, PartialEq, Eq, Structural)]
pub enum TokenKind {
    Plain,
    IPv4,
    IPv6,
    Domain,
}

impl TokenKind {
    /// The rank that decides between overlapping candidates: a higher rank wins.
    pub open spec fn rank(self) -> int {
        match self {
            TokenKind::IPv4 => 3,
            TokenKind::IPv6 => 2,
            TokenKind::Domain => 1,
            TokenKind::Plain => 0,
        }
    }

    pub fn priority(self) -> (p: u8)
        ensures
            p == self.rank(),
    {
        match self {
            TokenKind::IPv4 => 3,
            TokenKind::IPv6 => 2,
            TokenKind::Domain => 1,
            TokenKind::Plain => 0,
        }
    }
}

/// One unit of the output: a recognised entity with its literal text, or the
/// untouched text between entities.
#[derive(Debug, Clone, PartialEq)]
pub enum Token {
    Plain(String),
    IPv4(String, Option<GeoLocation>),
    IPv6(String, Option<GeoLocation>),
    Domain(String),
}

/// The mathematical content of a token: its text and, for addresses, the
/// location text attached to it.
pub enum TokenView {
    Plain(Seq<char>),
    IPv4(Seq<char>, Option<Seq<char>>),
    IPv6(Seq<char>, Option<Seq<char>>),
    Domain(Seq<char>),
}

impl TokenView {
    /// The literal text that the token stands for in the input.
    pub open spec fn text(self) -> Seq<char> {
        match self {
            TokenView::Plain(t) => t,
            TokenView::IPv4(t, _) => t,
            TokenView::IPv6(t, _) => t,
            TokenView::Domain(t) => t,
        }
    }

    /// The token as a line of a listing: plain text as it is, an entity
    /// followed by its kind in square brackets.
    pub open spec fn rendered(self) -> Seq<char> {
        match self {
            TokenView::Plain(t) => t,
            TokenView::IPv4(t, _) => t + " [IPv4]"@,
            TokenView::IPv6(t, _) => t + " [IPv6]"@,
            TokenView::Domain(t) => t + " [Domain]"@,
        }
    }

    /// The token on a terminal, given its text and its location as they come
    /// back painted: plain text as it is, a domain painted, an address painted
    /// and followed by its painted location in square brackets.
    pub open spec fn shown(self, painted: Seq<char>, place: Seq<char>) -> Seq<char> {
        match self {
            TokenView::Plain(t) => t,
            TokenView::IPv4(_, _) => painted + " ["@ + place + "]"@,
            TokenView::IPv6(_, _) => painted + " ["@ + place + "]"@,
            TokenView::Domain(_) => painted,
        }
    }

    /// `ink` and `place` are this token's paint: `ink` its text in its
    /// colour (green for IPv4, blue for IPv6, yellow for a domain), `place`
    /// the location of an address in red, or the marker for an unknown one.
    /// Plain text takes no paint.
    pub open spec fn painted_by(self, ink: Seq<char>, place: Seq<char>) -> bool {
        match self {
            TokenView::Plain(_) => true,
            TokenView::IPv4(addr, geo) => tinted(addr, GREEN_ON@, ink) && tinted(
                place_text(geo),
                RED_ON@,
                place,
            ),
            TokenView::IPv6(addr, geo) => tinted(addr, BLUE_ON@, ink) && tinted(
                place_text(geo),
                RED_ON@,
                place,
            ),
            TokenView::Domain(domain) => tinted(domain, YELLOW_ON@, ink),
        }
    }

    pub open spec fn kind(self) -> TokenKind {
        match self {
            TokenView::Plain(_) => TokenKind::Plain,
            TokenView::IPv4(_, _) => TokenKind::IPv4,
            TokenView::IPv6(_, _) => TokenKind::IPv6,
            TokenView::Domain(_) => TokenKind::Domain,
        }
    }
}

impl View for Token {
    type V = TokenView;

    open spec fn view(&self) -> TokenView {
        match *self {
            Token::Plain(t) => TokenView::Plain(t@),
            Token::IPv4(t, g) => TokenView::IPv4(t@, location_view(g)),
            Token::IPv6(t, g) => TokenView::IPv6(t@, location_view(g)),
            Token::Domain(t) => TokenView::Domain(t@),
        }
    }
}

/// The token of a kind, with its text and, for an address, its location.
pub open spec fn token_of(kind: TokenKind, text: Seq<char>, geo: Option<Seq<char>>) -> TokenView {
    match kind {
        TokenKind::Plain => TokenView::Plain(text),
        TokenKind::IPv4 => TokenView::IPv4(text, geo),
        TokenKind::IPv6 => TokenView::IPv6(text, geo),
        TokenKind::Domain => TokenView::Domain(text),
    }
}

impl Token {
    /// The token of a kind for a text. Only an address carries a location:
    /// `geo` is left out of plain text and of a domain.
    pub fn of_kind(kind: TokenKind, text: String, geo: Option<GeoLocation>) -> (token: Token)
        ensures
            token@ == token_of(kind, text@, location_view(geo)),
    {
        match kind {
            TokenKind::Plain => Token::Plain(text),
            TokenKind::IPv4 => Token::IPv4(text, geo),
            TokenKind::IPv6 => Token::IPv6(text, geo),
            TokenKind::Domain => Token::Domain(text),
        }
    }

    pub fn kind(&self) -> (k: TokenKind)
        ensures
            k == self@.kind(),
    {
        match self {
            Token::Plain(_) => TokenKind::Plain,
            Token::IPv4(_, _) => TokenKind::IPv4,
            Token::IPv6(_, _) => TokenKind::IPv6,
            Token::Domain(_) => TokenKind::Domain,
        }
    }

    /// IPv4 ranks 3, IPv6 2, a domain 1 and plain text 0.
    pub fn priority(&self) -> (p: u8)
        ensures
            p == self@.kind().rank(),
    {
        match self {
            Token::IPv4(_, _) => 3,
            Token::IPv6(_, _) => 2,
            Token::Domain(_) => 1,
            Token::Plain(_) => 0,
        }
    }

    /// The token's literal text.
    pub fn text(&self) -> (text: &str)
        ensures
            text@ == self@.text(),
    {
        match self {
            Token::Plain(t) => t.as_str(),
            Token::IPv4(t, _) => t.as_str(),
            Token::IPv6(t, _) => t.as_str(),
            Token::Domain(t) => t.as_str(),
        }
    }

    pub fn to_string(&self) -> (line: String)
        ensures
            line@ == self@.rendered(),
    {
        let mut line = String::from_str(self.text());
        match self {
            Token::Plain(_) => {},
            Token::IPv4(_, _) => {
                line.append(" [IPv4]");
            },
            Token::IPv6(_, _) => {
                line.append(" [IPv6]");
            },
            Token::Domain(_) => {
                line.append(" [Domain]");
            },
        }
        line
    }

    /// The token on a terminal, given its painted text and painted location.
    pub fn show(&self, painted: &str, place: &str) -> (shown: String)
        ensures
            shown@ == self@.shown(painted@, place@),
    {
        match self {
            Token::Plain(t) => String::from_str(t.as_str()),
            Token::Domain(_) => String::from_str(painted),
            _ => {
                let mut shown = String::from_str(painted);
                shown.append(" [");
                shown.append(place);
                shown.append("]");
                shown
            },
        }
    }

    pub fn is_plain(&self) -> (plain: bool)
        ensures
            plain == (self@.kind() == TokenKind::Plain),
    {
        matches!(self, Token::Plain(_))
    }
}

} // verus!
