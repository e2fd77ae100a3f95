use so::config::{Config, SearchEngine};

#[test]
fn test_set_api_key() {
    let mut cfg = Config {
        api_key: Some("old key".to_string()),
        limit: 64,
        lucky: false,
        sites: vec!["english".to_string()],
        search_engine: SearchEngine::DuckDuckGo,
        copy_cmd: Some("wl-copy".to_string()),
    };
    cfg.set_api_key("new key".to_string());
    assert_eq!(cfg.api_key, Some("new key".to_string()));
    assert_eq!(cfg.limit, 64);
    assert_eq!(cfg.sites, vec!["english".to_string()]);
}

#[test]
fn test_config_paths() {
    assert_eq!(
        Config::config_file_path("/home/u/.config/so"),
        "/home/u/.config/so/config.yml".to_string()
    );
    assert_eq!(
        Config::theme_file_path("/home/u/.config/so"),
        "/home/u/.config/so/colors.toml".to_string()
    );
}

#[test]
fn test_engine_names() {
    assert_eq!(SearchEngine::DuckDuckGo.name(), "duckduckgo".to_string());
    assert_eq!(SearchEngine::Google.name(), "google".to_string());
    assert_eq!(SearchEngine::StackExchange.name(), "stackexchange".to_string());
}
