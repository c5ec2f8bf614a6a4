use roses::config::{
    check_login, config_dir_from, config_path, load_browser_pref, load_credentials, logout, record_login,
    load_remote_images, refresh_interval, Settings,
};

#[test]
fn config_dir_uses_xdg_when_set() {
    assert_eq!(config_dir_from(Some("/tmp/xdg"), "/home/ross"), "/tmp/xdg/roses");
}

#[test]
fn config_dir_falls_back_to_dot_config() {
    assert_eq!(config_dir_from(None, "/home/ross"), "/home/ross/.config/roses");
}

#[test]
fn config_dir_ignores_empty_xdg() {
    assert_eq!(config_dir_from(Some(""), "/home/ross"), "/home/ross/.config/roses");
}

#[test]
fn config_file_sits_in_the_config_dir() {
    assert_eq!(config_path("/home/ross/.config/roses"), "/home/ross/.config/roses/config.toml");
    assert_eq!(config_dir_from(Some("/tmp/xdg/"), "/h"), "/tmp/xdg/roses");
}

#[test]
fn default_settings_have_no_email() {
    let s = Settings::default();
    assert_eq!(s.email, None);
    assert!(load_credentials(&s, Some("pw".to_string())).is_none());
}

#[test]
fn credentials_need_an_email_and_a_stored_password() {
    let mut s = Settings::default();
    s.email = Some("reader@example.com".to_string());
    assert!(load_credentials(&s, None).is_none(), "no keychain entry");
    let c = load_credentials(&s, Some("swordfish".to_string())).unwrap();
    assert_eq!(c.email, "reader@example.com");
    assert_eq!(c.password, "swordfish");
}

#[test]
fn browser_pref_defaults_to_a_gui_launch() {
    let mut s = Settings::default();
    let p = load_browser_pref(&s);
    assert!(p.command.is_none() && !p.terminal);
    s.browser = Some("w3m %s".to_string());
    s.browser_terminal = Some(true);
    let p = load_browser_pref(&s);
    assert_eq!(p.command.as_deref(), Some("w3m %s"));
    assert!(p.terminal);
}

#[test]
fn logout_forgets_only_the_email() {
    let mut s = Settings::default();
    s.email = Some("a@b".to_string());
    s.browser = Some("lynx".to_string());
    assert_eq!(logout(&mut s).as_deref(), Some("a@b"));
    assert!(s.email.is_none());
    assert_eq!(s.browser.as_deref(), Some("lynx"));
    assert_eq!(logout(&mut s), None, "nothing to delete the second time");
    record_login(&mut s, "c@d".to_string());
    assert_eq!(s.email.as_deref(), Some("c@d"));
    assert_eq!(s.browser.as_deref(), Some("lynx"));
}

#[test]
fn login_refuses_empty_fields() {
    assert_eq!(check_login("", "pw").unwrap_err(), "email must not be empty");
    assert_eq!(check_login("a@b", "").unwrap_err(), "password must not be empty");
    assert!(check_login("a@b", "pw").is_ok());
}

#[test]
fn refresh_interval_is_off_by_default_and_floored() {
    let mut s = Settings::default();
    assert_eq!(refresh_interval(&s), None);
    s.refresh_interval_secs = Some(0);
    assert_eq!(refresh_interval(&s), None);
    s.refresh_interval_secs = Some(5);
    assert_eq!(refresh_interval(&s), Some(60));
    s.refresh_interval_secs = Some(300);
    assert_eq!(refresh_interval(&s), Some(300));
}

#[test]
fn remote_images_load_unless_turned_off() {
    let mut s = Settings::default();
    assert!(load_remote_images(&s), "unset means images load");
    s.load_remote_images = Some(true);
    assert!(load_remote_images(&s));
    s.load_remote_images = Some(false);
    assert!(!load_remote_images(&s));
}
