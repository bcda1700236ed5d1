//! The persisted application configuration and its lifecycle.
//!
//! `AppConfig` is the only persisted entity: a dashboard URL, an autostart
//! flag and a start-minimized flag. Loading never fails: a missing file
//! yields the defaults (and asks the caller to persist them), an unreadable
//! or unparseable file yields the defaults in memory only, and a parsed
//! document is defaulted field by field. The file I/O itself happens outside
//! this crate; the caller hands in what it read and performs the write that
//! `LoadOutcome` requests.

use vstd::prelude::*;
use vstd::string::StringExecFns;

verus! {

/// The mathematical value of an `AppConfig`: the three settings, with the
/// URL as its character sequence.
#[verifier::ext_equal]
pub ghost struct ConfigView {
    pub url: Seq<char>,
    pub autostart: bool,
    pub start_minimized: bool,
}

/// The user-level settings persisted on disk.
#[derive(Debug, Clone, PartialEq, Eq)]
pub struct AppConfig {
    /// Address the embedded browser view is pointed at; non-empty by default.
    pub url: String,
    /// Whether to register the program for login-time autostart.
    pub autostart: bool,
    /// Whether the main window starts hidden.
    pub start_minimized: bool,
}

impl View for AppConfig {
    type V = ConfigView;

    open spec fn view(&self) -> ConfigView {
        ConfigView {
            url: self.url@,
            autostart: self.autostart,
            start_minimized: self.start_minimized,
        }
    }
}

/// The default dashboard address.
pub open spec fn spec_default_url() -> Seq<char> {
    "https://pingvoice.io/dashboard"@
}

/// The configuration used whenever no persisted value is available.
pub open spec fn spec_default_config() -> ConfigView {
    ConfigView { url: spec_default_url(), autostart: true, start_minimized: true }
}

/// The default dashboard address, as a string.
pub fn default_url() -> (r: String)
    ensures
        r@ == spec_default_url(),
{
    String::from_str("https://pingvoice.io/dashboard")
}

/// The default of both boolean settings.
pub fn default_true() -> (b: bool)
    ensures
        b,
{
    true
}

impl Default for AppConfig {
    /// All three fields at their documented defaults.
    fn default() -> (c: Self)
        ensures
            c@ == spec_default_config(),
    {
        let c = AppConfig { url: default_url(), autostart: true, start_minimized: true };
        proof {
            assert(c@ =~= spec_default_config());
        }
        c
    }
}

/// The configuration file location under a user-config directory `base`, or
/// under the current working directory when none could be determined.
pub open spec fn spec_config_path(base: Option<Seq<char>>) -> Seq<char> {
    (match base {
        Some(b) => b,
        None => "."@,
    }) + "/io.pingvoice.app/config.json"@
}

/// Relies on `dirs::config_dir`: the platform's user-configuration
/// directory, if one can be determined. The result depends on the process
/// environment; a directory whose path is not Unicode text counts as
/// undetermined.
#[verifier::external_body]
fn user_config_dir() -> (r: Option<String>) {
    dirs::config_dir().and_then(|p| p.into_os_string().into_string().ok())
}

impl AppConfig {
    /// The configuration file location derived from a given user-config
    /// directory; `None` stands for a directory that could not be determined
    /// and falls back to the current working directory.
    pub fn config_path_in(base: Option<&String>) -> (r: String)
        ensures
            r@ == spec_config_path(match base {
                Some(b) => Some(b@),
                None => None,
            }),
    {
        let prefix: String = match base {
            Some(b) => b.clone(),
            None => String::from_str("."),
        };
        prefix.concat("/io.pingvoice.app/config.json")
    }

    /// The configuration file location for this process: the platform
    /// user-config directory when one can be determined, the working
    /// directory otherwise. The caller is expected to create the containing
    /// directory before using the path.
    pub fn config_path() -> (r: String)
        ensures
            exists|base: Option<Seq<char>>| r@ == spec_config_path(base),
    {
        let base = user_config_dir();
        let r = Self::config_path_in(base.as_ref());
        proof {
            let b = match base {
                Some(s) => Some(s@),
                None => None::<Seq<char>>,
            };
            assert(r@ == spec_config_path(b));
        }
        r
    }

    /// Reads a configuration document, as the format says; `None` when the
    /// document is not of the expected shape.
    pub fn parse_json(s: &str) -> (r: Option<AppConfig>)
        ensures
            match r {
                Some(c) => crate::codec::spec_parse_config(s@) == Some(c@),
                None => crate::codec::spec_parse_config(s@) is None,
            },
    {
        crate::codec::parse_config(s)
    }

    /// Writes this configuration in its canonical pretty form.
    pub fn to_json(&self) -> (r: String)
        ensures
            r@ == crate::codec::spec_render(self@),
    {
        crate::codec::render_config(self)
    }

    /// Builds the configuration for this session from what reading the file
    /// produced. This never fails: every outcome yields a full
    /// configuration.
    pub fn load_from(read: FileRead) -> (out: LoadOutcome)
        ensures
            match read {
                FileRead::Absent => {
                    &&& out.config@ == spec_default_config()
                    &&& out.write_default
                    &&& !out.diagnostic
                },
                FileRead::Unreadable => {
                    &&& out.config@ == spec_default_config()
                    &&& !out.write_default
                    &&& out.diagnostic
                },
                FileRead::Content(s) => {
                    &&& out.config@ == spec_loaded_config(s@)
                    &&& !out.write_default
                    &&& (out.diagnostic <==> crate::codec::spec_parse_config(s@) is None)
                },
            },
            out.config@.url.len() > 0,
    {
        proof {
            reveal_strlit("https://pingvoice.io/dashboard");
            assert(spec_default_config().url.len() > 0);
        }
        match read {
            FileRead::Absent => LoadOutcome {
                config: AppConfig::default(),
                write_default: true,
                diagnostic: false,
            },
            FileRead::Unreadable => LoadOutcome {
                config: AppConfig::default(),
                write_default: false,
                diagnostic: true,
            },
            FileRead::Content(s) => {
                proof {
                    crate::codec::lemma_parsed_url_nonempty(s@);
                }
                match Self::parse_json(s.as_str()) {
                    Some(c) => LoadOutcome { config: c, write_default: false, diagnostic: false },
                    None => LoadOutcome {
                        config: AppConfig::default(),
                        write_default: false,
                        diagnostic: true,
                    },
                }
            },
        }
    }
}

/// What reading the configuration file produced: no file at all, a file that
/// could not be read, or its text.
pub enum FileRead {
    Absent,
    Unreadable,
    Content(String),
}

/// What loading decided: the configuration for this session; whether the
/// caller should persist it (only when no file existed); and whether an
/// existing file could not be used, so that the caller may log a diagnostic.
pub struct LoadOutcome {
    pub config: AppConfig,
    pub write_default: bool,
    pub diagnostic: bool,
}

/// The configuration a document yields on load: what it parses to, or the
/// defaults when it does not parse.
pub open spec fn spec_loaded_config(s: Seq<char>) -> ConfigView {
    match crate::codec::spec_parse_config(s) {
        Some(v) => v,
        None => spec_default_config(),
    }
}

/// Law: saving a loaded configuration and loading it again yields the same
/// configuration, field for field. Every loaded configuration has a
/// non-empty url, so the round trip covers everything a load can produce.
pub proof fn lemma_save_load_round_trip(v: ConfigView)
    requires
        v.url.len() > 0,
    ensures
        spec_loaded_config(crate::codec::spec_render(v)) == v,
{
    crate::codec::lemma_render_parse_round_trip(v);
}

} // verus!
