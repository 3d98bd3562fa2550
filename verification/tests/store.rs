use hunters_mark::error::HuntersMarkError;
use hunters_mark::global::Config;

fn store_with(entries: &[(&str, &str)]) -> Config {
    let mut config = Config::default();
    for (name, path) in entries {
        config
            .add_mark(name.to_string(), path.to_string(), Vec::new(), 100, true)
            .unwrap();
    }
    config
}

#[test]
fn add_mark_sets_equal_timestamps() {
    let mut config = Config::default();
    let r = config.add_mark(
        "docs".to_string(),
        "/home/u/docs".to_string(),
        vec!["work".to_string()],
        12345,
        true,
    );
    assert!(r.is_ok());
    assert_eq!(config.marks.len(), 1);
    let mark = config.get("/home/u/docs").unwrap();
    assert_eq!(mark.name, "docs");
    assert_eq!(mark.tags, vec!["work".to_string()]);
    assert_eq!(mark.created_at, 12345);
    assert_eq!(mark.last_accessed, 12345);
}

#[test]
fn add_mark_rejects_invalid_names() {
    let mut config = Config::default();
    for bad in ["my project", "my.project", "my/project", "my@project", ""] {
        let r = config.add_mark(bad.to_string(), "/tmp/x".to_string(), Vec::new(), 1, true);
        match r {
            Err(HuntersMarkError::InvalidMarkName(name, _)) => assert_eq!(name, bad),
            other => panic!("expected InvalidMarkName, got {:?}", other),
        }
        assert_eq!(config.marks.len(), 0);
    }
}

#[test]
fn add_mark_rejects_existing_path_and_keeps_old_mark() {
    let mut config = store_with(&[("api", "/srv/api")]);
    let r = config.add_mark("other".to_string(), "/srv/api".to_string(), Vec::new(), 999, true);
    match r {
        Err(HuntersMarkError::MarkAlreadyExists(name, path)) => {
            assert_eq!(name, "other");
            assert_eq!(path, "/srv/api");
        }
        other => panic!("expected MarkAlreadyExists, got {:?}", other),
    }
    // the existing mark is untouched
    let mark = config.get("/srv/api").unwrap();
    assert_eq!(mark.name, "api");
    assert_eq!(mark.created_at, 100);
}

#[test]
fn add_mark_rejects_missing_directory() {
    let mut config = Config::default();
    let r = config.add_mark("gone".to_string(), "/no/such/dir".to_string(), Vec::new(), 1, false);
    match r {
        Err(HuntersMarkError::DirectoryNotFound(path)) => assert_eq!(path, "/no/such/dir"),
        other => panic!("expected DirectoryNotFound, got {:?}", other),
    }
    assert_eq!(config.marks.len(), 0);
}

#[test]
fn remove_mark_deletes_exactly_one_entry() {
    let mut config = store_with(&[("a", "/a"), ("b", "/b"), ("c", "/c")]);
    config.remove_mark("/b").unwrap();
    assert_eq!(config.marks.len(), 2);
    assert!(config.get("/a").is_some());
    assert!(config.get("/b").is_none());
    assert!(config.get("/c").is_some());
}

#[test]
fn remove_mark_unknown_path_fails() {
    let mut config = store_with(&[("a", "/a")]);
    let r = config.remove_mark("/zzz");
    match r {
        Err(HuntersMarkError::MarkNotFound(path)) => assert_eq!(path, "/zzz"),
        other => panic!("expected MarkNotFound, got {:?}", other),
    }
    assert_eq!(config.marks.len(), 1);
}

#[test]
fn touch_moves_last_access_forward_only() {
    let mut config = store_with(&[("a", "/a")]);
    assert!(config.touch("/a", 500));
    assert_eq!(config.get("/a").unwrap().last_accessed, 500);
    // an earlier clock reading never moves the mark backward
    assert!(config.touch("/a", 50));
    assert_eq!(config.get("/a").unwrap().last_accessed, 500);
    assert!(config.get("/a").unwrap().last_accessed >= config.get("/a").unwrap().created_at);
    // touching an unmarked path reports failure and changes nothing
    assert!(!config.touch("/b", 600));
    assert_eq!(config.marks.len(), 1);
}
