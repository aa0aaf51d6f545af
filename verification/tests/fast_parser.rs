use nali::geo::fakegeo::FakeGeo;
use nali::geo::geodb::GeoLocation;
use nali::{FastParser, NaliText, Parser, Token};

fn fake() -> Option<GeoLocation> {
    Some(GeoLocation { location: "Fake Location".to_string() })
}

fn parse(input: &str) -> NaliText {
    FastParser::default().parse(input, &FakeGeo::new())
}

fn joined(text: &NaliText) -> String {
    text.tokens()
        .iter()
        .map(|t| match t {
            Token::Plain(s) | Token::Domain(s) => s.clone(),
            Token::IPv4(s, _) | Token::IPv6(s, _) => s.clone(),
        })
        .collect()
}

#[test]
fn ipv4_alone_is_one_token() {
    let text = parse("192.168.1.1");
    assert_eq!(text.tokens(), &[Token::IPv4("192.168.1.1".to_string(), fake())]);
}

#[test]
fn ipv6_alone_is_one_token() {
    let text = parse("2001:db8::1");
    assert_eq!(text.tokens(), &[Token::IPv6("2001:db8::1".to_string(), fake())]);
}

#[test]
fn text_without_addresses_is_one_plain_token() {
    let text = parse("no ip here");
    assert_eq!(text.tokens(), &[Token::Plain("no ip here".to_string())]);
}

#[test]
fn empty_input_has_no_tokens() {
    let text = parse("");
    assert!(text.tokens().is_empty());
}

#[test]
fn overflowing_first_group_slides_the_window() {
    let parser = FastParser::default();
    assert_eq!(parser.match_ipv4("2555.1.1.1"), vec![(2, 10)]);
    let text = parse("2555.1.1.1");
    assert_eq!(
        text.tokens(),
        &[Token::Plain("25".to_string()), Token::IPv4("55.1.1.1".to_string(), fake())]
    );
}

#[test]
fn overflowing_fourth_group_commits_and_restarts() {
    let parser = FastParser::default();
    assert_eq!(parser.match_ipv4("1.2.3.2567"), vec![(0, 8)]);
    assert_eq!(parser.match_ipv4("1.2.3.256.7.8.9"), vec![(0, 8), (8, 15)]);
}

#[test]
fn fifth_group_ends_the_address() {
    let parser = FastParser::default();
    assert_eq!(parser.match_ipv4("1.2.3.4.5"), vec![(0, 7)]);
    assert_eq!(parser.match_ipv4("1.2.3.4 "), vec![(0, 7)]);
    assert_eq!(parser.match_ipv4("1.2.3"), vec![]);
    assert_eq!(parser.match_ipv4("1..2.3.4"), vec![]);
}

#[test]
fn leading_zeros_are_digits() {
    let parser = FastParser::default();
    assert_eq!(parser.match_ipv4("0001.002.03.4"), vec![(0, 13)]);
}

#[test]
fn address_in_a_sentence() {
    let text = parse("ping 8.8.8.8 now");
    assert_eq!(
        text.tokens(),
        &[
            Token::Plain("ping ".to_string()),
            Token::IPv4("8.8.8.8".to_string(), fake()),
            Token::Plain(" now".to_string()),
        ]
    );
}

#[test]
fn offsets_are_bytes_behind_wide_characters() {
    let parser = FastParser::default();
    let input = "héllo wörld → 10.0.0.1 ✓";
    let at = input.find("10.0.0.1").unwrap();
    assert_eq!(parser.match_ipv4(input), vec![(at, at + 8)]);
    let text = parse(input);
    assert_eq!(
        text.tokens(),
        &[
            Token::Plain("héllo wörld → ".to_string()),
            Token::IPv4("10.0.0.1".to_string(), fake()),
            Token::Plain(" ✓".to_string()),
        ]
    );
    assert_eq!(joined(&text), input);
}

#[test]
fn ipv6_full_form() {
    let parser = FastParser::default();
    assert_eq!(parser.match_ipv6("1:2:3:4:5:6:7:8"), vec![(0, 15)]);
    assert_eq!(parser.match_ipv6("1:2:3:4:5:6:7"), vec![]);
    assert_eq!(parser.match_ipv6("x 1:2:3:4:5:6:7:8 y"), vec![(2, 17)]);
}

#[test]
fn ipv6_trailing_colons_are_left_out() {
    let parser = FastParser::default();
    assert_eq!(parser.match_ipv6("1::"), vec![(0, 1)]);
    assert_eq!(parser.match_ipv6("1:2:3:4:5:6:7:"), vec![(0, 13)]);
    assert_eq!(parser.match_ipv6("1:: "), vec![(0, 3)]);
}

#[test]
fn ipv6_second_double_colon_ends_the_address() {
    let parser = FastParser::default();
    assert_eq!(parser.match_ipv6("1::2::3"), vec![(0, 4)]);
}

#[test]
fn ipv6_long_group_slides_the_window() {
    let parser = FastParser::default();
    assert_eq!(parser.match_ipv6("abcde::1"), vec![(1, 8)]);
    assert_eq!(parser.match_ipv6("1::abcde"), vec![(0, 7)]);
}

#[test]
fn ipv4_outranks_ipv6_where_they_overlap() {
    let text = parse("::1.2.3.4");
    assert_eq!(joined(&text), "::1.2.3.4");
    let text = parse("a::1.2.3.4");
    assert_eq!(joined(&text), "a::1.2.3.4");
    assert!(text.tokens().iter().any(|t| matches!(t, Token::IPv4(s, _) if s == "1.2.3.4")));
}

#[test]
fn fast_parser_is_called_fast() {
    let parser = FastParser::default();
    assert_eq!(<FastParser as Parser<FakeGeo>>::name(&parser), "fast");
}
