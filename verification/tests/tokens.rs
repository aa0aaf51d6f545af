use nali::assembler::assemble;
use nali::config::{
    FakeGeoConfig, GeoDBConfig, GeoLite2Config, NaliConfig, ParserConfig, TomlConfig,
};
use nali::geo::fakegeo::FakeGeo;
use nali::geo::geodb::{place_label, GeoDB, GeoLocation};
use nali::geo::geolite2::{compose_location, find_name, get_localized_name, language_code};
use nali::resolver::Candidate;
use nali::text::text_between;
use nali::{NaliText, Token, TokenKind};

fn fake() -> Option<GeoLocation> {
    Some(GeoLocation { location: "Fake Location".to_string() })
}

#[test]
fn priorities_are_ranked() {
    assert_eq!(Token::IPv4("1.1.1.1".to_string(), None).priority(), 3);
    assert_eq!(Token::IPv6("::1".to_string(), None).priority(), 2);
    assert_eq!(Token::Domain("a.b".to_string()).priority(), 1);
    assert_eq!(Token::Plain("x".to_string()).priority(), 0);
    assert_eq!(TokenKind::IPv4.priority(), 3);
    assert_eq!(TokenKind::IPv6.priority(), 2);
    assert_eq!(TokenKind::Domain.priority(), 1);
    assert_eq!(TokenKind::Plain.priority(), 0);
}

#[test]
fn only_plain_is_plain() {
    assert!(Token::Plain("x".to_string()).is_plain());
    assert!(!Token::IPv4("1.1.1.1".to_string(), None).is_plain());
    assert!(!Token::IPv6("::1".to_string(), None).is_plain());
    assert!(!Token::Domain("a.b".to_string()).is_plain());
}

#[test]
fn tokens_of_each_kind() {
    assert_eq!(Token::of_kind(TokenKind::Plain, "p".to_string(), fake()), Token::Plain("p".to_string()));
    assert_eq!(Token::of_kind(TokenKind::Domain, "a.b".to_string(), fake()), Token::Domain("a.b".to_string()));
    assert_eq!(Token::of_kind(TokenKind::IPv4, "1.1.1.1".to_string(), fake()), Token::IPv4("1.1.1.1".to_string(), fake()));
    assert_eq!(Token::of_kind(TokenKind::IPv6, "::1".to_string(), None), Token::IPv6("::1".to_string(), None));
}

#[test]
fn kinds_and_texts() {
    assert_eq!(Token::Domain("a.b".to_string()).kind(), TokenKind::Domain);
    assert_eq!(Token::IPv4("1.1.1.1".to_string(), fake()).text(), "1.1.1.1");
}

#[test]
fn tokens_as_listing_lines() {
    assert_eq!(Token::Plain("hello ".to_string()).to_string(), "hello ");
    assert_eq!(Token::IPv4("1.1.1.1".to_string(), fake()).to_string(), "1.1.1.1 [IPv4]");
    assert_eq!(Token::IPv6("::1".to_string(), None).to_string(), "::1 [IPv6]");
    assert_eq!(Token::Domain("a.b".to_string()).to_string(), "a.b [Domain]");
}

#[test]
fn text_as_listing() {
    let text = NaliText::new(vec![
        Token::Plain("to ".to_string()),
        Token::IPv4("1.1.1.1".to_string(), None),
        Token::Plain(" or ".to_string()),
        Token::Domain("a.b".to_string()),
    ]);
    assert_eq!(text.to_string(), "to 1.1.1.1 [IPv4] or a.b [Domain]");
    assert_eq!(text.tokens().len(), 4);
}

#[test]
fn tokens_shown_with_given_paint() {
    assert_eq!(Token::Plain("p".to_string()).show("X", "Y"), "p");
    assert_eq!(Token::IPv4("1.1.1.1".to_string(), None).show("<1.1.1.1>", "<Unknown>"), "<1.1.1.1> [<Unknown>]");
    assert_eq!(Token::IPv6("::1".to_string(), fake()).show("<::1>", "<Fake>"), "<::1> [<Fake>]");
    assert_eq!(Token::Domain("a.b".to_string()).show("<a.b>", "ignored"), "<a.b>");
}

#[test]
fn colorize_keeps_plain_text_and_brackets() {
    let text = NaliText::new(vec![Token::Plain("just text".to_string())]);
    assert_eq!(text.colorize(), "just text");
    let text = NaliText::new(vec![
        Token::Plain("at ".to_string()),
        Token::IPv4("8.8.8.8".to_string(), fake()),
    ]);
    let shown = text.colorize();
    assert!(shown.starts_with("at "));
    assert!(shown.contains("8.8.8.8"));
    assert!(shown.contains(" ["));
    assert!(shown.contains("Fake Location"));
    assert!(shown.ends_with("]"));
    let text = NaliText::new(vec![Token::IPv6("::1".to_string(), None)]);
    assert!(text.colorize().contains("Unknown"));
}

fn mixed_text() -> NaliText {
    NaliText::new(vec![
        Token::Plain("at ".to_string()),
        Token::IPv4("8.8.8.8".to_string(), fake()),
        Token::Plain(" ".to_string()),
        Token::IPv6("::1".to_string(), None),
        Token::Plain(" ".to_string()),
        Token::Domain("a.b".to_string()),
    ])
}

#[test]
fn colours_on_wrap_each_painted_text() {
    colored::control::set_override(true);
    assert_eq!(
        mixed_text().colorize(),
        "at \x1b[32m8.8.8.8\x1b[0m [\x1b[31mFake Location\x1b[0m] \x1b[34m::1\x1b[0m [\x1b[31mUnknown\x1b[0m] \x1b[33ma.b\x1b[0m"
    );
}

#[test]
fn colours_off_leave_the_text() {
    colored::control::set_override(false);
    assert_eq!(mixed_text().colorize(), "at 8.8.8.8 [Fake Location] ::1 [Unknown] a.b");
}

#[test]
fn unknown_location_has_a_label() {
    assert_eq!(place_label(&None), "Unknown");
    assert_eq!(place_label(&fake()), "Fake Location");
}

#[test]
fn fake_database_answers_the_same_every_time() {
    let db = FakeGeo::new();
    assert_eq!(db.lookup("1.2.3.4"), fake());
    assert_eq!(db.lookup("1.2.3.4"), db.lookup("1.2.3.4"));
    assert_eq!(db.lookup("not an address"), fake());
    assert_eq!(FakeGeo::default().lookup("::1"), fake());
}

struct Echo;

impl GeoDB for Echo {
    fn lookup(&self, ip: &str) -> Option<GeoLocation> {
        if ip.is_empty() {
            None
        } else {
            Some(GeoLocation { location: format!("at {}", ip) })
        }
    }
}

#[test]
fn boxed_database_forwards_the_address() {
    let db: Box<dyn GeoDB> = Box::new(Echo);
    assert_eq!(db.lookup("::1"), Some(GeoLocation { location: "at ::1".to_string() }));
    assert_eq!(db.lookup(""), None);
    assert_eq!(db.lookup("8.8.8.8"), Echo.lookup("8.8.8.8"));
}

#[test]
fn addresses_carry_the_answer_for_their_own_text() {
    let parser = nali::FastParser::default();
    let text = nali::Parser::parse(&parser, "x 1.2.3.4 y 2001:db8::1", &Echo);
    assert_eq!(
        text.tokens(),
        &[
            Token::Plain("x ".to_string()),
            Token::IPv4("1.2.3.4".to_string(), Some(GeoLocation { location: "at 1.2.3.4".to_string() })),
            Token::Plain(" y ".to_string()),
            Token::IPv6(
                "2001:db8::1".to_string(),
                Some(GeoLocation { location: "at 2001:db8::1".to_string() })
            ),
        ]
    );
}

#[test]
fn boxed_database_answers_as_the_database() {
    let db: Box<dyn GeoDB> = Box::new(FakeGeo::new());
    assert_eq!(db.lookup("8.8.8.8"), fake());
    let text = nali::FastParser::default();
    let text = nali::Parser::parse(&text, "8.8.8.8", &db);
    assert_eq!(text.tokens(), &[Token::IPv4("8.8.8.8".to_string(), fake())]);
}

#[test]
fn text_between_byte_offsets() {
    assert_eq!(text_between("héllo", 0, 3), "hé");
    assert_eq!(text_between("héllo", 3, 6), "llo");
    assert_eq!(text_between("héllo", 6, 6), "");
}

#[test]
fn assembling_fills_the_gaps() {
    let accepted = vec![
        Candidate { start: 2, end: 5, kind: TokenKind::Domain },
        Candidate { start: 5, end: 8, kind: TokenKind::IPv6 },
    ];
    let tokens = assemble("0123456789", &accepted, &FakeGeo::new());
    assert_eq!(
        tokens,
        vec![
            Token::Plain("01".to_string()),
            Token::Domain("234".to_string()),
            Token::IPv6("567".to_string(), fake()),
            Token::Plain("89".to_string()),
        ]
    );
    assert_eq!(assemble("", &vec![], &FakeGeo::new()), vec![]);
    assert_eq!(
        assemble("abc", &vec![Candidate { start: 0, end: 3, kind: TokenKind::IPv4 }], &FakeGeo::new()),
        vec![Token::IPv4("abc".to_string(), fake())]
    );
}

#[test]
fn language_codes() {
    assert_eq!(language_code(None), "en");
    assert_eq!(language_code(Some("de-DE")), "de");
    assert_eq!(language_code(Some("en-US")), "en");
    assert_eq!(language_code(Some("es")), "es");
    assert_eq!(language_code(Some("fr-CA")), "fr");
    assert_eq!(language_code(Some("ja-JP")), "ja");
    assert_eq!(language_code(Some("pt-BR")), "pt");
    assert_eq!(language_code(Some("ru-RU")), "ru");
    assert_eq!(language_code(Some("zh-TW")), "zh-CN");
    assert_eq!(language_code(Some("it-IT")), "en");
    assert_eq!(language_code(Some("d")), "en");
    assert_eq!(language_code(Some("")), "en");
}

#[test]
fn localized_names_fall_back_to_english() {
    let names = vec![
        ("de".to_string(), "Köln".to_string()),
        ("en".to_string(), "Cologne".to_string()),
    ];
    assert_eq!(find_name(&names, "de"), Some("Köln".to_string()));
    assert_eq!(find_name(&names, "fr"), None);
    let names = Some(names);
    assert_eq!(get_localized_name(&names, "de"), Some("Köln".to_string()));
    assert_eq!(get_localized_name(&names, "fr"), Some("Cologne".to_string()));
    assert_eq!(get_localized_name(&None, "de"), None);
    assert_eq!(get_localized_name(&Some(vec![("ja".to_string(), "x".to_string())]), "de"), None);
}

#[test]
fn locations_name_the_country_first() {
    let loc = |s: &str| Some(GeoLocation { location: s.to_string() });
    assert_eq!(compose_location(Some("Paris".to_string()), Some("France".to_string())), loc("France Paris"));
    assert_eq!(compose_location(Some("Paris".to_string()), None), loc("Paris"));
    assert_eq!(compose_location(None, Some("France".to_string())), loc("France"));
    assert_eq!(compose_location(None, None), None);
}

#[test]
fn configuration_defaults() {
    assert_eq!(ParserConfig::default(), ParserConfig::FastParser);
    assert_eq!(GeoLite2Config::default().path, "GeoLite2-City.mmdb");
    assert!(matches!(GeoDBConfig::default(), GeoDBConfig::GeoLite2(c) if c.path == "GeoLite2-City.mmdb"));
    let config = NaliConfig::with_settings("/home/u/.config/nali-rs".to_string(), None);
    assert_eq!(config.parser(), ParserConfig::FastParser);
    assert!(matches!(config.geodb(), GeoDBConfig::GeoLite2(c) if c.path == "GeoLite2-City.mmdb"));
    assert_eq!(config.app_support_path(), "/home/u/.config/nali-rs");
}

#[test]
fn configuration_from_settings() {
    let settings = TomlConfig {
        parser: ParserConfig::RegexParser,
        geodb: GeoDBConfig::FakeGeo(FakeGeoConfig {}),
    };
    let config = NaliConfig::with_settings("dir".to_string(), Some(settings));
    assert_eq!(config.parser(), ParserConfig::RegexParser);
    assert!(matches!(config.geodb(), GeoDBConfig::FakeGeo(_)));
}

#[test]
fn database_path_is_joined_with_a_slash() {
    let config = GeoLite2Config { path: "db/city.mmdb".to_string() };
    assert_eq!(config.full_path("/opt/nali"), "/opt/nali/db/city.mmdb");
    assert_eq!(GeoLite2Config::default().full_path("dir"), "dir/GeoLite2-City.mmdb");
}
