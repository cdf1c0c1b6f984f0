//! Settings of a run, checked from the raw values of their environment variables.

use vstd::prelude::*;
use vstd::string::StringExecFns;

verus! {

/// Why the settings cannot be loaded.
#[derive(Debug)]
pub enum ConfigError {
    /// The variable named here is not set.
    EnvVarError(String),
    /// The variable named here is set but empty.
    VarEmpty(String),
    /// The value given is neither `true` nor `false`.
    InvalidBool(String),
}

pub type ConfigResult<T> = Result<T, ConfigError>;

#[derive(Clone)]
pub struct Config {
    pub database_url: String,
    pub log_db_statements: bool,
}

/// A set, non-empty value.
pub open spec fn env_str(var: Option<String>) -> Option<Seq<char>> {
    match var {
        Some(v) => if v@.len() > 0 {
            Some(v@)
        } else {
            None
        },
        None => None,
    }
}

/// A value that is exactly `true` or `false`.
pub open spec fn env_bool(var: Option<String>) -> Option<bool> {
    match var {
        Some(v) => if v@ == "true"@ {
            Some(true)
        } else if v@ == "false"@ {
            Some(false)
        } else {
            None
        },
        None => None,
    }
}

/// The value of variable `key`, where `var` is what the environment holds.
pub fn load_env_str(key: String, var: Option<String>) -> (r: ConfigResult<String>)
    ensures
        match var {
            None => r matches Err(ConfigError::EnvVarError(k)) && k@ == key@,
            Some(v) => if v@.len() == 0 {
                r matches Err(ConfigError::VarEmpty(k)) && k@ == key@
            } else {
                r matches Ok(s) && s@ == v@
            },
        },
{
    match var {
        None => Err(ConfigError::EnvVarError(key)),
        Some(v) => {
            if v.as_str().is_empty() {
                Err(ConfigError::VarEmpty(key))
            } else {
                Ok(v)
            }
        },
    }
}

/// The boolean value of variable `key`: exactly `true` or `false`.
pub fn load_env_bool(key: String, var: Option<String>) -> (r: ConfigResult<bool>)
    ensures
        match var {
            None => r matches Err(ConfigError::EnvVarError(k)) && k@ == key@,
            Some(v) => if v@.len() == 0 {
                r matches Err(ConfigError::VarEmpty(k)) && k@ == key@
            } else if v@ == "true"@ {
                r matches Ok(b) && b
            } else if v@ == "false"@ {
                r matches Ok(b) && !b
            } else {
                r matches Err(ConfigError::InvalidBool(s)) && s@ == v@
            },
        },
{
    let var = match load_env_str(key, var) {
        Ok(v) => v,
        Err(e) => return Err(e),
    };
    let t = String::from_str("true");
    let f = String::from_str("false");
    proof {
        reveal_strlit("true");
        reveal_strlit("false");
    }
    if var == f {
        Ok(false)
    } else if var == t {
        Ok(true)
    } else {
        Err(ConfigError::InvalidBool(var))
    }
}

impl Config {
    /// The settings from the raw values of `DATABASE_URL` and `LOG_DB_STATEMENTS`.
    pub fn new(database_url: Option<String>, log_db_statements: Option<String>) -> (r: ConfigResult<Config>)
        ensures
            match r {
                Ok(c) => env_str(database_url) == Some(c.database_url@) && env_bool(log_db_statements)
                    == Some(c.log_db_statements),
                Err(_) => env_str(database_url) is None || env_bool(log_db_statements) is None,
            },
    {
        proof {
            reveal_strlit("true");
            reveal_strlit("false");
        }
        let database_url = match load_env_str(String::from_str("DATABASE_URL"), database_url) {
            Ok(v) => v,
            Err(e) => return Err(e),
        };
        let log_db_statements = match load_env_bool(String::from_str("LOG_DB_STATEMENTS"), log_db_statements) {
            Ok(v) => v,
            Err(e) => return Err(e),
        };
        Ok(Config { database_url, log_db_statements })
    }
}

} // verus!
