use bookmarks::general::{Info, Settings};

#[test]
fn settings_hold_what_they_were_given() {
    let plugins = vec!["qrcode".to_string(), "archive".to_string()];
    let settings = Settings::new("Título", "enlace", "Europe/Madrid", plugins.clone(), true);
    assert_eq!(settings.title(), "Título");
    assert_eq!(settings.header_link(), "enlace");
    assert_eq!(settings.timezone(), "Europe/Madrid");
    assert_eq!(settings.enabled_plugins(), &plugins);
    assert!(settings.default_private_links());
    let other = Settings::new("", "", "", Vec::new(), false);
    assert_eq!(other.title(), "");
    assert!(other.enabled_plugins().is_empty());
    assert!(!other.default_private_links());
}

#[test]
fn info_holds_what_it_was_given() {
    let settings = Settings::new("Título", "enlace", "Europe/Madrid", Vec::new(), true);
    let info = Info::new(12, 5, settings);
    assert_eq!(info.global_counter(), 12);
    assert_eq!(info.private_counter(), 5);
    assert_eq!(info.settings().title(), "Título");
    assert_eq!(info.settings().timezone(), "Europe/Madrid");
    let info = Info::new(0, 0, Settings::new("t", "h", "z", Vec::new(), false));
    assert_eq!((info.global_counter(), info.private_counter()), (0, 0));
}
