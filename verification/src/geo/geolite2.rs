//! What is decided around a GeoLite2 city database: which language its names
//! are asked for in, which of a record's names is taken, and how a city and a
//! country make a location.

use vstd::prelude::*;
use vstd::string::{StrSliceExecFns, StringExecFns};
use super::geodb::GeoLocation;

verus! {

/// The language that names are asked for in when the locale names no other.
pub const DEFAULT_LANGUAGE: &'static str = "en";

/// Whether `locale` begins with the two characters `a` and `b`.
pub open spec fn begins_with(locale: Seq<char>, a: char, b: char) -> bool {
    locale.len() >= 2 && locale[0] == a && locale[1] == b
}

/// The database's language code for a locale: the locale's own language where
/// the database has it, simplified Chinese for every Chinese locale, else
/// English; English too where no locale is known.
pub open spec fn language_for(locale: Option<Seq<char>>) -> Seq<char> {
    match locale {
        None => DEFAULT_LANGUAGE@,
        Some(l) => if begins_with(l, 'd', 'e') {
            "de"@
        } else if begins_with(l, 'e', 'n') {
            "en"@
        } else if begins_with(l, 'e', 's') {
            "es"@
        } else if begins_with(l, 'f', 'r') {
            "fr"@
        } else if begins_with(l, 'j', 'a') {
            "ja"@
        } else if begins_with(l, 'p', 't') {
            "pt"@
        } else if begins_with(l, 'r', 'u') {
            "ru"@
        } else if begins_with(l, 'z', 'h') {
            "zh-CN"@
        } else {
            DEFAULT_LANGUAGE@
        },
    }
}

pub open spec fn locale_view(locale: Option<&str>) -> Option<Seq<char>> {
    match locale {
        Some(l) => Some(l@),
        None => None,
    }
}

pub fn language_code(locale: Option<&str>) -> (code: &'static str)
    ensures
        code@ == language_for(locale_view(locale)),
{
    match locale {
        None => DEFAULT_LANGUAGE,
        Some(l) => {
            if l.unicode_len() < 2 {
                return DEFAULT_LANGUAGE;
            }
            let a = l.get_char(0);
            let b = l.get_char(1);
            if a == 'd' && b == 'e' {
                "de"
            } else if a == 'e' && b == 'n' {
                "en"
            } else if a == 'e' && b == 's' {
                "es"
            } else if a == 'f' && b == 'r' {
                "fr"
            } else if a == 'j' && b == 'a' {
                "ja"
            } else if a == 'p' && b == 't' {
                "pt"
            } else if a == 'r' && b == 'u' {
                "ru"
            } else if a == 'z' && b == 'h' {
                "zh-CN"
            } else {
                DEFAULT_LANGUAGE
            }
        },
    }
}

/// The name that `names` holds for `language`, looking at its first `n`
/// entries: that of the first entry for the language.
pub open spec fn name_in(names: Seq<(String, String)>, language: Seq<char>, n: int) -> Option<
    Seq<char>,
>
    decreases n,
{
    if n <= 0 {
        None
    } else {
        match name_in(names, language, n - 1) {
            Some(name) => Some(name),
            None => if names[n - 1].0@ == language {
                Some(names[n - 1].1@)
            } else {
                None
            },
        }
    }
}

/// The name to show, of the names of a record by language: the one for
/// `language`, else the English one, else none.
pub open spec fn localized(names: Option<Seq<(String, String)>>, language: Seq<char>) -> Option<
    Seq<char>,
> {
    match names {
        None => None,
        Some(names) => match name_in(names, language, names.len() as int) {
            Some(name) => Some(name),
            None => name_in(names, DEFAULT_LANGUAGE@, names.len() as int),
        },
    }
}

pub open spec fn text_view(text: Option<String>) -> Option<Seq<char>> {
    match text {
        Some(t) => Some(t@),
        None => None,
    }
}

pub open spec fn names_view(names: Option<Vec<(String, String)>>) -> Option<
    Seq<(String, String)>,
> {
    match names {
        Some(n) => Some(n@),
        None => None,
    }
}

/// The name that `names` holds for `language`, if it holds one.
pub fn find_name(names: &Vec<(String, String)>, language: &str) -> (name: Option<String>)
    ensures
        text_view(name) == name_in(names@, language@, names@.len() as int),
{
    let wanted = String::from_str(language);
    let mut k: usize = 0;
    while k < names.len()
        invariant
            k <= names@.len(),
            wanted@ == language@,
            name_in(names@, language@, k as int) is None,
        decreases names@.len() - k,
    {
        if names[k].0 == wanted {
            let found = names[k].1.clone();
            proof {
                lemma_name_in_stays(names@, language@, k as int + 1, names@.len() as int);
            }
            return Some(found);
        }
        k += 1;
    }
    None
}

/// A name that was found among the first entries is the name found among all.
proof fn lemma_name_in_stays(names: Seq<(String, String)>, language: Seq<char>, n: int, m: int)
    requires
        0 <= n <= m,
        name_in(names, language, n) is Some,
    ensures
        name_in(names, language, m) == name_in(names, language, n),
    decreases m - n,
{
    if n < m {
        lemma_name_in_stays(names, language, n, m - 1);
    }
}

pub fn get_localized_name(names: &Option<Vec<(String, String)>>, language: &str) -> (name: Option<
    String,
>)
    ensures
        text_view(name) == localized(names_view(*names), language@),
{
    match names {
        None => None,
        Some(names) => match find_name(names, language) {
            Some(name) => Some(name),
            None => find_name(names, DEFAULT_LANGUAGE),
        },
    }
}

/// The location for a city and a country: the country followed by the city
/// where both are known, the one that is known where only one is, none where
/// neither is.
pub open spec fn location_of(city: Option<Seq<char>>, country: Option<Seq<char>>) -> Option<
    Seq<char>,
> {
    match (city, country) {
        (Some(city), Some(country)) => Some(country + " "@ + city),
        (Some(city), None) => Some(city),
        (None, Some(country)) => Some(country),
        (None, None) => None,
    }
}

pub fn compose_location(city: Option<String>, country: Option<String>) -> (geo: Option<
    GeoLocation,
>)
    ensures
        super::geodb::location_view(geo) == location_of(text_view(city), text_view(country)),
{
    match (city, country) {
        (Some(city), Some(country)) => {
            let mut location = country;
            location.append(" ");
            location.append(city.as_str());
            Some(GeoLocation { location })
        },
        (Some(city), None) => Some(GeoLocation { location: city }),
        (None, Some(country)) => Some(GeoLocation { location: country }),
        (None, None) => None,
    }
}

} // verus!
