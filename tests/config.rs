use rustdoc_prettier::config::{max_width_from_config, max_width_setting, ConfigError};

#[test]
fn width_from_toml() {
    assert_eq!(Some(80), max_width_from_config("max_width = 80\n").unwrap());
    assert_eq!(None, max_width_from_config("edition = \"2021\"\n").unwrap());
}

#[test]
fn width_not_an_integer() {
    assert!(matches!(
        max_width_from_config("max_width = \"wide\"\n"),
        Err(ConfigError::NotInteger)
    ));
}

#[test]
fn width_out_of_range() {
    assert!(matches!(
        max_width_from_config("max_width = -3\n"),
        Err(ConfigError::OutOfRange(-3))
    ));
}

#[test]
fn config_not_toml() {
    assert!(matches!(
        max_width_from_config("max_width = = 3"),
        Err(ConfigError::Parse(_))
    ));
}

#[test]
fn setting_from_entry() {
    assert_eq!(None, max_width_setting(None).unwrap());
    assert_eq!(Some(100), max_width_setting(Some(Some(100))).unwrap());
    assert!(matches!(max_width_setting(Some(None)), Err(ConfigError::NotInteger)));
}

#[test]
fn width_in_nested_table_is_not_top_level() {
    assert_eq!(None, max_width_from_config("[other]\nmax_width = 80\n").unwrap());
}
