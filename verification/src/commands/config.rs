//! `tig config get|set <key> [value]`: reads or writes the user
//! configuration.
use ini::Ini;
use vstd::prelude::*;

use crate::commands::tig_command::TigCommand;
use crate::error::TigError;
use crate::utils::config_util::{
    config_get, config_lookup, config_set, config_update, ini_entries, split_config_key, split_key,
};
use crate::utils::text_util::{eq_ascii_case_insensitive, eq_ignore_ascii_case, trim, trimmed};

verus! {

/// The command that reads or writes the configuration.
pub struct Config {
    mode: String,
    key: String,
    value: Option<String>,
}

/// What the command holds.
pub struct ConfigView {
    pub mode: Seq<char>,
    pub key: Seq<char>,
    pub value: Option<Seq<char>>,
}

impl View for Config {
    type V = ConfigView;

    closed spec fn view(&self) -> ConfigView {
        ConfigView {
            mode: self.mode@,
            key: self.key@,
            value: match self.value {
                Some(v) => Some(v@),
                None => None,
            },
        }
    }
}

/// What the command did.
pub enum ConfigOutcome {
    /// `get` read this value.
    Value(String),
    /// `set` stored the value.
    Stored,
}

/// Whether a value to store is given and not blank.
pub open spec fn has_value(value: Option<Seq<char>>) -> bool {
    value matches Some(v) && trimmed(v).len() > 0
}

/// Whether the operation `mode` is `word` (`get` or `set`): the mode
/// trimmed and lowercased is the word.
pub open spec fn mode_is(mode: Seq<char>, word: Seq<char>) -> bool {
    eq_ignore_ascii_case(trimmed(mode), word)
}

impl Config {
    /// The command, with the arguments that follow its name: the operation,
    /// the key and, for `set`, the value.
    pub fn new(args: Vec<String>) -> (r: Result<Self, TigError>)
        ensures
            args@.len() == 0 ==> r == Err::<Self, TigError>(TigError::MissingConfigMode),
            args@.len() == 1 ==> r == Err::<Self, TigError>(TigError::MissingConfigKey),
            args@.len() >= 2 ==> (r matches Ok(c) && c@ == (ConfigView {
                mode: args@[0]@,
                key: args@[1]@,
                value: if args@.len() > 2 {
                    Some(args@[2]@)
                } else {
                    None
                },
            })),
    {
        let mut args = args;
        if args.len() == 0 {
            return Err(TigError::MissingConfigMode);
        }
        if args.len() == 1 {
            return Err(TigError::MissingConfigKey);
        }
        let value = if args.len() > 2 {
            Some(args.remove(2))
        } else {
            None
        };
        let key = args.remove(1);
        let mode = args.remove(0);
        Ok(Self { mode, key, value })
    }

    /// Checks what can be checked before the configuration file is read:
    /// the operation is `get` or `set`, `set` has a value that is not blank,
    /// and the key has a section.
    pub fn check(&self) -> (r: Result<(), TigError>)
        ensures
            !mode_is(self@.mode, "get"@) && !mode_is(self@.mode, "set"@) ==> r == Err::<
                (),
                TigError,
            >(TigError::UnsupportedConfigMode),
            !mode_is(self@.mode, "get"@) && mode_is(self@.mode, "set"@) && !has_value(self@.value) ==> (r matches Err(TigError::MissingConfigValue(k)) && k@
                == self@.key),
            (mode_is(self@.mode, "get"@) || (mode_is(self@.mode, "set"@) && has_value(self@.value))) ==> if split_key(self@.key) is Some {
                r is Ok
            } else {
                r matches Err(TigError::UnknownConfigKey(k)) && k@ == self@.key
            },
    {
        let mode = trim(self.mode.as_str());
        let is_get = eq_ascii_case_insensitive(mode, "get");
        if !is_get {
            if !eq_ascii_case_insensitive(mode, "set") {
                return Err(TigError::UnsupportedConfigMode);
            }
            match &self.value {
                Some(v) => {
                    if trim(v.as_str()).is_empty() {
                        return Err(TigError::MissingConfigValue(self.key.clone()));
                    }
                },
                None => return Err(TigError::MissingConfigValue(self.key.clone())),
            }
        }
        match split_config_key(self.key.as_str()) {
            Some(_) => Ok(()),
            None => Err(TigError::UnknownConfigKey(self.key.clone())),
        }
    }

    /// Runs the operation on the configuration `config`: `get` reads the
    /// key's value (empty where it is not set), `set` stores a value that is
    /// not blank.
    pub fn run(&self, config: &mut Ini) -> (r: Result<ConfigOutcome, TigError>)
        ensures
            mode_is(self@.mode, "get"@) ==> *final(config) == *old(config) && (match config_lookup(
                ini_entries(*old(config)),
                self@.key,
            ) {
                Some(v) => r matches Ok(ConfigOutcome::Value(s)) && s@ == v,
                None => r matches Err(TigError::UnknownConfigKey(k)) && k@ == self@.key,
            }),
            !mode_is(self@.mode, "get"@) && mode_is(self@.mode, "set"@) ==> match self@.value {
                Some(v) => if trimmed(v).len() == 0 {
                    *final(config) == *old(config) && (r matches Err(
                        TigError::MissingConfigValue(k),
                    ) && k@ == self@.key)
                } else {
                    match config_update(ini_entries(*old(config)), self@.key, v) {
                        Some(m) => r matches Ok(ConfigOutcome::Stored) && ini_entries(
                            *final(config),
                        ) == m,
                        None => *final(config) == *old(config) && (r matches Err(
                            TigError::UnknownConfigKey(k),
                        ) && k@ == self@.key),
                    }
                },
                None => *final(config) == *old(config) && (r matches Err(
                    TigError::MissingConfigValue(k),
                ) && k@ == self@.key),
            },
            !mode_is(self@.mode, "get"@) && !mode_is(self@.mode, "set"@) ==> *final(config)
                == *old(config) && r == Err::<ConfigOutcome, TigError>(
                TigError::UnsupportedConfigMode,
            ),
    {
        let mode = trim(self.mode.as_str());
        if eq_ascii_case_insensitive(mode, "get") {
            let value = config_get(config, self.key.as_str())?;
            return Ok(ConfigOutcome::Value(value));
        }
        if eq_ascii_case_insensitive(mode, "set") {
            let value = match &self.value {
                Some(v) => v.as_str(),
                None => return Err(TigError::MissingConfigValue(self.key.clone())),
            };
            if trim(value).is_empty() {
                return Err(TigError::MissingConfigValue(self.key.clone()));
            }
            config_set(config, self.key.as_str(), value)?;
            return Ok(ConfigOutcome::Stored);
        }
        Err(TigError::UnsupportedConfigMode)
    }

    /// The key that the command reads or writes.
    pub fn key(&self) -> (r: &str)
        ensures
            r@ == self@.key,
    {
        self.key.as_str()
    }

    /// The value to store, if one was given.
    pub fn value(&self) -> (r: Option<&str>)
        ensures
            match self@.value {
                Some(v) => r matches Some(s) && s@ == v,
                None => r is None,
            },
    {
        match &self.value {
            Some(v) => Some(v.as_str()),
            None => None,
        }
    }
}

impl TigCommand for Config {
    fn get_name(&self) -> (r: &'static str)
        ensures
            r@ == "config"@,
    {
        "config"
    }
}

} // verus!
