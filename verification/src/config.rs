//! What the process is told at start: which pairs to watch and on which port
//! to answer.

use crate::decimal::parse_u64;
use crate::decimal::unsigned_of;
use crate::text::pieces;
use crate::text::split;
use crate::text::to_upper;
use crate::text::trim;
use crate::text::trimmed;
use crate::text::uppercase_of;
use vstd::prelude::*;

verus! {

/// The settings of one run.
#[derive(Debug, Clone)]
pub struct Config {
    /// The trading pairs to watch, in upper case.
    pub pairs: Vec<String>,
    /// The TCP port of the query surface.
    pub api_port: u16,
}

/// Why a configuration was refused.
#[derive(Debug, Clone, Copy, PartialEq, Eq)]
pub enum ConfigError {
    /// The port is not a whole number from 0 to 65535.
    InvalidPort,
}

/// The mathematical content of a `Config`.
pub struct ConfigView {
    pub pairs: Seq<Seq<char>>,
    pub api_port: u16,
}

impl View for Config {
    type V = ConfigView;

    open spec fn view(&self) -> ConfigView {
        ConfigView { pairs: self.pairs@.map_values(|p: String| p@), api_port: self.api_port }
    }
}

/// The pair list that is watched when none is given.
pub open spec fn default_pairs() -> Seq<char> {
    "BTCUSDT,ETHUSDT"@
}

/// The port that is used when none is given.
pub open spec fn default_port() -> Seq<char> {
    "3000"@
}

/// The pairs that a comma-separated list names: each piece without the
/// white space around it, in upper case. Empty pieces are kept.
pub open spec fn pairs_of(list: Seq<char>) -> Seq<Seq<char>> {
    pieces(list, ',').map_values(|p: Seq<char>| uppercase_of(trimmed(p)))
}

/// The port that a text names, if it names one: a whole number from 0 to
/// 65535, written as `str::parse` reads it.
pub open spec fn port_of(text: Seq<char>) -> Option<u16> {
    match unsigned_of(text) {
        Some(n) => if n <= u16::MAX {
            Some(n as u16)
        } else {
            None
        },
        None => None,
    }
}

/// A setting, or the default that stands for it when it is absent.
pub open spec fn or_default(setting: Option<Seq<char>>, default: Seq<char>) -> Seq<char> {
    match setting {
        Some(text) => text,
        None => default,
    }
}

/// The configuration that the two settings describe, or why they describe
/// none.
pub open spec fn config_of(pairs: Option<Seq<char>>, api_port: Option<Seq<char>>) -> Result<
    ConfigView,
    ConfigError,
> {
    match port_of(or_default(api_port, default_port())) {
        Some(port) => Ok(
            ConfigView { pairs: pairs_of(or_default(pairs, default_pairs())), api_port: port },
        ),
        None => Err(ConfigError::InvalidPort),
    }
}

/// The text of a setting that may be absent.
pub open spec fn setting_view(setting: Option<&str>) -> Option<Seq<char>> {
    match setting {
        Some(text) => Some(text@),
        None => None,
    }
}

impl Config {
    /// Builds the configuration from the two settings as they were found:
    /// `pairs` is a comma-separated list and `api_port` a port number, each
    /// `None` where the setting is absent. An absent list stands for
    /// `BTCUSDT,ETHUSDT` and an absent port for `3000`. A port that is no
    /// number from 0 to 65535 is refused.
    pub fn from_values(pairs: Option<&str>, api_port: Option<&str>) -> (r: Result<
        Config,
        ConfigError,
    >)
        ensures
            match r {
                Ok(c) => config_of(setting_view(pairs), setting_view(api_port)) == Ok::<
                    ConfigView,
                    ConfigError,
                >(c@),
                Err(e) => config_of(setting_view(pairs), setting_view(api_port)) == Err::<
                    ConfigView,
                    ConfigError,
                >(e),
            },
    {
        let list: &str = match pairs {
            Some(list) => list,
            None => "BTCUSDT,ETHUSDT",
        };
        let port_text: &str = match api_port {
            Some(text) => text,
            None => "3000",
        };
        let raw = split(list, ',');
        let mut names: Vec<String> = Vec::new();
        let mut i: usize = 0;
        while i < raw.len()
            invariant
                i <= raw.len(),
                names@.len() == i,
                forall|j: int|
                    0 <= j < i ==> (#[trigger] names@[j])@ == uppercase_of(trimmed(raw@[j]@)),
            decreases raw.len() - i,
        {
            let name = to_upper(trim(raw[i].as_str()));
            names.push(name);
            i = i + 1;
        }
        let port: u16 = match parse_u64(port_text) {
            Some(n) => {
                if n > 65535 {
                    return Err(ConfigError::InvalidPort);
                }
                n as u16
            },
            None => {
                return Err(ConfigError::InvalidPort);
            },
        };
        let c = Config { pairs: names, api_port: port };
        proof {
            let wanted = pairs_of(or_default(setting_view(pairs), default_pairs()));
            assert(raw@.map_values(|p: String| p@) == pieces(list@, ','));
            assert forall|j: int| 0 <= j < c@.pairs.len() implies c@.pairs[j] == wanted[j] by {
                assert(raw@.map_values(|p: String| p@)[j] == raw@[j]@);
            }
            assert(c@.pairs =~= wanted);
        }
        Ok(c)
    }
}

} // verus!
