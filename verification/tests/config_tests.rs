use ethereal_waves::config::{decode_paths, keep_present, AppTheme, Config};

fn roots(config: &Config) -> Vec<String> {
    config.library_paths().to_vec()
}

#[test]
fn the_default_settings_follow_the_desktop_and_have_no_roots() {
    let config = Config::default();
    assert_eq!(config.app_theme, AppTheme::System);
    assert!(config.library_paths().is_empty());
    assert!(!config.has_library_path("/music"));
}

#[test]
fn a_root_is_added_once() {
    let mut config = Config::default();
    assert!(config.add_library_path("/music".to_string()));
    assert!(config.add_library_path("/more".to_string()));
    assert!(!config.add_library_path("/music".to_string()));
    assert_eq!(roots(&config), vec!["/music", "/more"]);
    assert!(config.has_library_path("/music"));
    assert!(config.has_library_path("/more"));
    assert!(!config.has_library_path("/mus"));
}

#[test]
fn a_root_is_removed() {
    let mut config = Config::default();
    config.add_library_path("/a".to_string());
    config.add_library_path("/b".to_string());
    config.add_library_path("/c".to_string());
    assert!(config.remove_library_path("/b"));
    assert!(!config.remove_library_path("/b"));
    assert!(!config.remove_library_path("/never"));
    assert_eq!(roots(&config), vec!["/a", "/c"]);
    assert!(!config.has_library_path("/b"));
    assert!(config.add_library_path("/b".to_string()));
    assert_eq!(roots(&config), vec!["/a", "/c", "/b"]);
}

#[test]
fn selected_paths_are_added_each_once() {
    let mut config = Config::default();
    config.add_library_path("/a".to_string());
    config.add_library_paths(vec![
        "/b".to_string(),
        "/a".to_string(),
        "/c".to_string(),
        "/b".to_string(),
    ]);
    let mut all = roots(&config);
    all.sort();
    assert_eq!(all, vec!["/a", "/b", "/c"]);
    config.add_library_paths(Vec::new());
    assert_eq!(config.library_paths().len(), 3);
}

#[test]
fn the_theme_can_be_set_and_is_copied() {
    let mut config = Config::default();
    config.app_theme = AppTheme::Dark;
    config.add_library_path("/a".to_string());
    let copy = config.clone();
    assert_eq!(copy.app_theme, AppTheme::Dark);
    assert_eq!(roots(&copy), vec!["/a"]);
    config.app_theme = AppTheme::Light;
    config.remove_library_path("/a");
    assert_eq!(copy.app_theme, AppTheme::Dark);
    assert_eq!(roots(&copy), vec!["/a"]);
}

#[test]
fn chosen_paths_are_percent_decoded() {
    let raw = vec![
        "/home/me/My%20Music".to_string(),
        "/plain".to_string(),
        "/caf%C3%A9".to_string(),
        "/a+b".to_string(),
        "/100%".to_string(),
    ];
    assert_eq!(
        decode_paths(&raw),
        vec!["/home/me/My Music", "/plain", "/caf\u{e9}", "/a+b", "/100%"]
    );
}

#[test]
fn paths_that_decode_to_no_text_are_left_out() {
    let raw = vec!["/ok%21".to_string(), "/bad%FF".to_string(), "/also%2Fok".to_string()];
    assert_eq!(decode_paths(&raw), vec!["/ok!", "/also/ok"]);
    assert!(decode_paths(&[]).is_empty());
}

#[test]
fn the_texts_that_are_there_are_kept_in_their_order() {
    let decoded = vec![
        Some("a".to_string()),
        None,
        Some("b".to_string()),
        Some("a".to_string()),
        None,
    ];
    assert_eq!(keep_present(decoded), vec!["a", "b", "a"]);
    assert!(keep_present(vec![None, None]).is_empty());
    assert!(keep_present(Vec::new()).is_empty());
    assert_eq!(keep_present(vec![Some(String::new())]), vec![""]);
}
