use search_crawler::config::{load_env_bool, load_env_str, Config, ConfigError};

fn s(v: &str) -> String {
    String::from(v)
}

#[test]
fn env_str_values() {
    assert_eq!(load_env_str(s("K"), Some(s("v"))).unwrap(), "v");
    assert!(matches!(load_env_str(s("K"), None), Err(ConfigError::EnvVarError(k)) if k == "K"));
    assert!(matches!(load_env_str(s("K"), Some(s(""))), Err(ConfigError::VarEmpty(k)) if k == "K"));
}

#[test]
fn env_bool_values() {
    assert!(load_env_bool(s("B"), Some(s("true"))).unwrap());
    assert!(!load_env_bool(s("B"), Some(s("false"))).unwrap());
    assert!(matches!(load_env_bool(s("B"), Some(s("TRUE"))), Err(ConfigError::InvalidBool(v)) if v == "TRUE"));
    assert!(matches!(load_env_bool(s("B"), Some(s(""))), Err(ConfigError::VarEmpty(_))));
    assert!(matches!(load_env_bool(s("B"), None), Err(ConfigError::EnvVarError(_))));
}

#[test]
fn config_from_values() {
    let c = Config::new(Some(s("postgres://db")), Some(s("false"))).unwrap();
    assert_eq!(c.database_url, "postgres://db");
    assert!(!c.log_db_statements);
    assert!(Config::new(None, Some(s("true"))).is_err());
    assert!(Config::new(Some(s("postgres://db")), Some(s("yes"))).is_err());
}
