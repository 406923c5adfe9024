use rustmap::config::{Config, RecentSettings};

#[test]
fn default_config_remembers_nothing() {
    let config = Config::default();
    assert!(config.recent.is_none());
}

#[test]
fn default_recent_settings_name_no_file() {
    let recent = RecentSettings::default();
    assert!(recent.map_path.is_none());
    assert!(recent.map_width.is_none());
    assert!(recent.map_height.is_none());
    assert!(recent.tileset_path.is_none());
    assert!(recent.blockset_path.is_none());
}

#[test]
fn config_holds_what_it_is_given() {
    let config = Config {
        recent: Some(RecentSettings {
            map_path: Some("pallet.blk".into()),
            map_width: Some(20),
            map_height: Some(18),
            tileset_path: Some("overworld.png".to_string()),
            blockset_path: Some("overworld.bst".to_string()),
        }),
    };
    let recent = config.recent.unwrap();
    assert_eq!(recent.map_width, Some(20));
    assert_eq!(recent.map_height, Some(18));
    assert_eq!(recent.map_path.unwrap().to_str(), Some("pallet.blk"));
    assert_eq!(recent.tileset_path.as_deref(), Some("overworld.png"));
    assert_eq!(recent.blockset_path.as_deref(), Some("overworld.bst"));
}
