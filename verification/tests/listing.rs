use hunters_mark::global::Config;
use hunters_mark::listing::{days_between, list_marks, str_le};
use hunters_mark::paths::config_file;

fn store() -> Config {
    let mut config = Config::default();
    config
        .add_mark(
            "beta".to_string(),
            "/b".to_string(),
            vec!["work".to_string()],
            100,
            true,
        )
        .unwrap();
    config
        .add_mark("alpha".to_string(), "/a".to_string(), Vec::new(), 200, true)
        .unwrap();
    config
        .add_mark(
            "gamma".to_string(),
            "/g".to_string(),
            vec!["work".to_string(), "play".to_string()],
            300,
            true,
        )
        .unwrap();
    config.touch("/b", 1000);
    config
}

#[test]
fn listing_by_name_is_alphabetical() {
    let config = store();
    let listed = list_marks(&config, None, false);
    let names: Vec<&str> = listed.iter().map(|e| e.mark.name.as_str()).collect();
    assert_eq!(names, vec!["alpha", "beta", "gamma"]);
}

#[test]
fn listing_by_recency_puts_last_accessed_first() {
    let config = store();
    let listed = list_marks(&config, None, true);
    let names: Vec<&str> = listed.iter().map(|e| e.mark.name.as_str()).collect();
    assert_eq!(names, vec!["beta", "gamma", "alpha"]);
}

#[test]
fn listing_narrows_to_a_tag() {
    let config = store();
    let tag = "work".to_string();
    let listed = list_marks(&config, Some(&tag), false);
    let names: Vec<&str> = listed.iter().map(|e| e.mark.name.as_str()).collect();
    assert_eq!(names, vec!["beta", "gamma"]);
    let tag2 = "play".to_string();
    let listed2 = list_marks(&config, Some(&tag2), false);
    assert_eq!(listed2.len(), 1);
    assert_eq!(listed2[0].mark.name, "gamma");
    let tag3 = "none".to_string();
    assert!(list_marks(&config, Some(&tag3), false).is_empty());
}

#[test]
fn day_counts_truncate_toward_zero() {
    assert_eq!(days_between(86_400 * 3 + 100, 0), 3);
    assert_eq!(days_between(86_400, 86_400), 0);
    assert_eq!(days_between(100, 50), 0);
    assert_eq!(days_between(0, 86_400), -1);
    assert_eq!(days_between(0, 86_399), 0);
}

#[test]
fn string_order_is_lexicographic() {
    assert!(str_le("alpha", "beta"));
    assert!(!str_le("beta", "alpha"));
    assert!(str_le("alp", "alpha"));
    assert!(str_le("same", "same"));
}

#[test]
fn config_file_lives_inside_the_directory() {
    assert_eq!(
        config_file("/home/u/.config/hunters-mark"),
        "/home/u/.config/hunters-mark/config.toml"
    );
    assert_eq!(
        hunters_mark::backend::config_file("/etc/hm"),
        "/etc/hm/config.toml"
    );
}
