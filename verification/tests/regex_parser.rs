use nali::geo::fakegeo::FakeGeo;
use nali::geo::geodb::GeoLocation;
use nali::pipeline::{tag_spans, tokens_from_candidates};
use nali::regex_parser::{
    compile_pattern, drop_empty, pattern_outcome, tokens_from_matches, PatternError,
    DOMAIN_PATTERN, IPV4_PATTERN, IPV6_PATTERN,
};
use nali::resolver::Candidate;
use nali::{FastParser, NaliText, Parser, RegexParser, Token, TokenKind};

fn fake() -> Option<GeoLocation> {
    Some(GeoLocation { location: "Fake Location".to_string() })
}

fn regex(input: &str) -> NaliText {
    RegexParser::new(FakeGeo::new()).parse(input)
}

fn fast(input: &str) -> NaliText {
    FastParser::default().parse(input, &FakeGeo::new())
}

fn spelled(text: &NaliText) -> String {
    text.tokens().iter().map(|t| t.text().to_string()).collect()
}

#[test]
fn strategies_agree_on_an_ipv4_address() {
    let expected = [Token::IPv4("192.168.1.1".to_string(), fake())];
    assert_eq!(regex("192.168.1.1").tokens(), &expected);
    assert_eq!(fast("192.168.1.1").tokens(), &expected);
}

#[test]
fn strategies_agree_on_an_ipv6_address() {
    let expected = [Token::IPv6("2001:db8::1".to_string(), fake())];
    assert_eq!(regex("2001:db8::1").tokens(), &expected);
    assert_eq!(fast("2001:db8::1").tokens(), &expected);
}

#[test]
fn strategies_agree_on_plain_text() {
    let expected = [Token::Plain("no ip here".to_string())];
    assert_eq!(regex("no ip here").tokens(), &expected);
    assert_eq!(fast("no ip here").tokens(), &expected);
}

#[test]
fn regex_empty_input_has_no_tokens() {
    assert!(regex("").tokens().is_empty());
}

#[test]
fn regex_finds_a_domain() {
    assert_eq!(
        regex("see example.com today").tokens(),
        &[
            Token::Plain("see ".to_string()),
            Token::Domain("example.com".to_string()),
            Token::Plain(" today".to_string()),
        ]
    );
}

#[test]
fn ipv4_wins_over_the_domain_it_overlaps() {
    // the domain pattern matches "1.2.3.4.com"; the address inside it outranks it
    let text = regex("1.2.3.4.com");
    assert_eq!(
        text.tokens(),
        &[Token::IPv4("1.2.3.4".to_string(), fake()), Token::Plain(".com".to_string())]
    );
}

#[test]
fn regex_keeps_offsets_behind_wide_characters() {
    let input = "üñí 10.0.0.1 → exämple.org";
    let text = regex(input);
    assert_eq!(spelled(&text), input);
    assert!(text.tokens().contains(&Token::IPv4("10.0.0.1".to_string(), fake())));
}

#[test]
fn regex_round_trip_on_mixed_text() {
    for input in [
        "a 1.2.3.4 b ::1 c example.com d",
        "999.999.999.999",
        "fe80::1%eth0 and 2001:db8:0:0:0:0:0:1",
        "::ffff:1.2.3.4",
        "x.y.z 1.2.3.4.5.6.7.8",
    ] {
        assert_eq!(spelled(&regex(input)), input);
        assert_eq!(spelled(&fast(input)), input);
    }
}

#[test]
fn regex_parser_is_called_regex() {
    assert_eq!(RegexParser::new(FakeGeo::new()).name(), "regex");
}

#[test]
fn empty_matches_are_dropped() {
    assert_eq!(drop_empty(&vec![(0, 0), (1, 3), (3, 3), (4, 5)]), vec![(1, 3), (4, 5)]);
}

#[test]
fn tokens_from_given_matches() {
    let text = tokens_from_matches(
        "ab 1.2.3.4.com",
        &vec![(3, 10)],
        &vec![],
        &vec![(3, 14), (0, 0)],
        &FakeGeo::new(),
    );
    assert_eq!(
        text.tokens(),
        &[
            Token::Plain("ab ".to_string()),
            Token::IPv4("1.2.3.4".to_string(), fake()),
            Token::Plain(".com".to_string()),
        ]
    );
}

#[test]
fn a_pattern_that_is_no_expression_is_a_syntax_error() {
    assert!(matches!(compile_pattern("foo(bar"), Err(PatternError::Syntax(_))));
}

#[test]
fn a_pattern_that_grows_too_big_is_refused() {
    assert!(matches!(compile_pattern(r"\w{1000}"), Err(PatternError::CompiledTooBig(_))));
}

#[test]
fn a_compiled_pattern_remembers_its_source() {
    assert_eq!(compile_pattern(IPV4_PATTERN).unwrap().as_str(), IPV4_PATTERN);
    assert_eq!(compile_pattern(IPV6_PATTERN).unwrap().as_str(), IPV6_PATTERN);
    assert_eq!(compile_pattern(DOMAIN_PATTERN).unwrap().as_str(), DOMAIN_PATTERN);
}

#[test]
fn the_built_in_patterns_compile() {
    assert!(compile_pattern(IPV4_PATTERN).is_ok());
    assert!(compile_pattern(IPV6_PATTERN).is_ok());
    assert!(compile_pattern(DOMAIN_PATTERN).is_ok());
    let parser = RegexParser::try_new(FakeGeo::new());
    assert!(parser.is_ok());
    let parser = parser.ok().unwrap();
    assert_eq!(
        parser.parse("1.2.3.4").tokens(),
        RegexParser::new(FakeGeo::new()).parse("1.2.3.4").tokens()
    );
}

#[test]
fn spans_become_candidates_in_order() {
    let mut candidates = vec![Candidate { start: 9, end: 10, kind: TokenKind::Domain }];
    tag_spans(&mut candidates, &vec![(0, 2), (4, 6)], TokenKind::IPv6);
    assert_eq!(
        candidates,
        vec![
            Candidate { start: 9, end: 10, kind: TokenKind::Domain },
            Candidate { start: 0, end: 2, kind: TokenKind::IPv6 },
            Candidate { start: 4, end: 6, kind: TokenKind::IPv6 },
        ]
    );
}

#[test]
fn candidates_are_sorted_reconciled_and_assembled() {
    let candidates = vec![
        Candidate { start: 6, end: 9, kind: TokenKind::IPv6 },
        Candidate { start: 0, end: 4, kind: TokenKind::Domain },
        Candidate { start: 2, end: 5, kind: TokenKind::IPv4 },
    ];
    let text = tokens_from_candidates("0123456789", &candidates, &FakeGeo::new());
    assert_eq!(
        text.tokens(),
        &[
            Token::Plain("01".to_string()),
            Token::IPv4("234".to_string(), fake()),
            Token::Plain("5".to_string()),
            Token::IPv6("678".to_string(), fake()),
            Token::Plain("9".to_string()),
        ]
    );
}

#[test]
fn compilation_outcomes_are_told_apart() {
    let compiled = pattern_outcome(regex::Regex::new("a+b"));
    assert_eq!(compiled.unwrap().as_str(), "a+b");
    assert_eq!(
        pattern_outcome(Err(regex::Error::Syntax("no".to_string()))).err(),
        Some(PatternError::Syntax("no".to_string()))
    );
    assert_eq!(
        pattern_outcome(Err(regex::Error::CompiledTooBig(12))).err(),
        Some(PatternError::CompiledTooBig(12))
    );
}

#[test]
fn every_ipv4_match_is_kept_and_domains_are_never_cut_short() {
    let text = regex("see 1.2.3.4.example.com, 10.0.0.1 and www.example.org");
    assert_eq!(
        text.tokens(),
        &[
            Token::Plain("see ".to_string()),
            Token::IPv4("1.2.3.4".to_string(), fake()),
            Token::Plain(".example.com, ".to_string()),
            Token::IPv4("10.0.0.1".to_string(), fake()),
            Token::Plain(" and ".to_string()),
            Token::Domain("www.example.org".to_string()),
        ]
    );
}
