use tongwen::config::{config_path_from_args, default_host, default_lists, default_port, Config};

#[test]
fn test_default() {
    let cfg = Config::default();
    assert_eq!(cfg.host, "127.0.0.1");
    assert_eq!(cfg.port, 1180);
    assert!(!cfg.lists);
}

#[test]
fn defaults_one_by_one() {
    assert_eq!(default_host(), "127.0.0.1");
    assert_eq!(default_port(), 1180);
    assert!(!default_lists());
}

fn args(v: &[&str]) -> Vec<String> {
    v.iter().map(|s| s.to_string()).collect()
}

#[test]
fn config_path_long_and_short_flags() {
    assert_eq!(config_path_from_args(&args(&["tongwen", "--config", "a.toml"])), Some("a.toml".to_string()));
    assert_eq!(config_path_from_args(&args(&["tongwen", "-c", "my.toml"])), Some("my.toml".to_string()));
    assert_eq!(config_path_from_args(&args(&["tongwen"])), None);
    assert_eq!(config_path_from_args(&args(&["tongwen", "-c"])), None);
    // Only the first flag counts.
    assert_eq!(config_path_from_args(&args(&["x", "-c", "--config", "b"])), Some("--config".to_string()));
}
