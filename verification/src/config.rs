//! What the program is configured with: which strategy parses the text, which
//! database locates addresses, and where the program keeps its files.

use vstd::prelude::*;
use vstd::string::StringExecFns;

verus! {

/// The strategy that parses the text.
#[derive(Debug, Clone, Copy, PartialEq, Eq, Structural)]
pub enum ParserConfig {
    FastParser,
    RegexParser,
}

impl Default for ParserConfig {
    fn default() -> (config: Self)
        ensures
            config == ParserConfig::FastParser,
    {
        ParserConfig::FastParser
    }
}

/// The name of the database file that is used when none is configured.
pub const DEFAULT_DATABASE_FILE: &'static str = "GeoLite2-City.mmdb";

/// Where the GeoLite2 database file lies, relative to the program's directory.
#[derive(Debug, Clone)]
pub struct GeoLite2Config {
    pub path: String,
}

impl Default for GeoLite2Config {
    fn default() -> (config: Self)
        ensures
            config.path@ == DEFAULT_DATABASE_FILE@,
    {
        GeoLite2Config { path: String::from_str(DEFAULT_DATABASE_FILE) }
    }
}

impl GeoLite2Config {
    /// The database file's path below `app_support_path`: the two joined by a
    /// slash.
    pub fn full_path(&self, app_support_path: &str) -> (path: String)
        ensures
            path@ == app_support_path@ + "/"@ + self.path@,
    {
        let mut path = String::from_str(app_support_path);
        path.append("/");
        path.append(self.path.as_str());
        path
    }
}

#[derive(Debug, Clone, Copy, Default)]
pub struct FakeGeoConfig {}

/// The database that locates addresses.
#[derive(Debug, Clone)]
pub enum GeoDBConfig {
    GeoLite2(GeoLite2Config),
    FakeGeo(FakeGeoConfig),
}

impl Default for GeoDBConfig {
    fn default() -> (config: Self)
        ensures
            config matches GeoDBConfig::GeoLite2(c) && c.path@ == DEFAULT_DATABASE_FILE@,
    {
        GeoDBConfig::GeoLite2(GeoLite2Config::default())
    }
}

/// The settings that a configuration file holds.
#[derive(Debug)]
pub struct TomlConfig {
    pub parser: ParserConfig,
    pub geodb: GeoDBConfig,
}

impl Default for TomlConfig {
    fn default() -> (config: Self)
        ensures
            config.parser == ParserConfig::FastParser,
            config.geodb matches GeoDBConfig::GeoLite2(c) && c.path@ == DEFAULT_DATABASE_FILE@,
    {
        TomlConfig { parser: ParserConfig::default(), geodb: GeoDBConfig::default() }
    }
}

#[derive(Debug)]
pub struct NaliConfig {
    app_support_path: String,
    toml_config: TomlConfig,
}

impl NaliConfig {
    /// The settings in force.
    pub closed spec fn settings(&self) -> TomlConfig {
        self.toml_config
    }

    /// The directory that the program keeps its files in.
    pub closed spec fn directory(&self) -> Seq<char> {
        self.app_support_path@
    }

    /// The configuration for a program directory and the settings that were
    /// read from its configuration file; where none could be read, the default
    /// settings.
    pub fn with_settings(app_support_path: String, read: Option<TomlConfig>) -> (config: Self)
        ensures
            config.directory() == app_support_path@,
            read matches Some(settings) ==> config.settings() == settings,
            read is None ==> {
                &&& config.settings().parser == ParserConfig::FastParser
                &&& config.settings().geodb matches GeoDBConfig::GeoLite2(c) && c.path@
                    == DEFAULT_DATABASE_FILE@
            },
    {
        let toml_config = match read {
            Some(settings) => settings,
            None => TomlConfig::default(),
        };
        Self { app_support_path, toml_config }
    }

    pub fn parser(&self) -> (parser: ParserConfig)
        ensures
            parser == self.settings().parser,
    {
        self.toml_config.parser
    }

    pub fn geodb(&self) -> (geodb: GeoDBConfig)
        ensures
            geodb == self.settings().geodb,
    {
        match &self.toml_config.geodb {
            GeoDBConfig::GeoLite2(c) => GeoDBConfig::GeoLite2(GeoLite2Config { path: c.path.clone() }),
            GeoDBConfig::FakeGeo(_) => GeoDBConfig::FakeGeo(FakeGeoConfig {  }),
        }
    }

    pub fn app_support_path(&self) -> (path: &str)
        ensures
            path@ == self.directory(),
    {
        self.app_support_path.as_str()
    }
}

} // verus!
