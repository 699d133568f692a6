use jrnl::config::{default_conf, use_pager};

#[test]
fn default_settings() {
    let config = default_conf();
    assert!(config.add_weekday);
    assert!(!config.add_food_column);
    assert_eq!(config.editor, "nano");
    assert_eq!(config.pager, "less");
    assert_eq!(config.max_rows, 5);
    assert!(!config.add_timestamp);
    assert_eq!(config.when_pager, "default");
    assert_eq!(config.default_path, ".");
    assert_eq!(config.approx_variation, 1);
}

#[test]
fn the_pager_is_used_as_the_setting_says() {
    assert!(use_pager("always", 0));
    assert!(use_pager("always", 100));
    assert!(!use_pager("never", 100));
    assert!(!use_pager("default", 4));
    assert!(use_pager("default", 5));
    assert!(use_pager("default", 6));
    assert!(!use_pager("", 100));
    assert!(!use_pager("Always", 100));
}
