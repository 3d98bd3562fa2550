use hunters_mark::codec::{render_timestamp, RawConfig, RawConfigError, RawMark};
use hunters_mark::global::{Config, TS_MAX, TS_MIN};

fn raw_mark(path: &str, name: &str, created_at: &str, last_accessed: &str) -> RawMark {
    RawMark {
        path: path.to_string(),
        name: name.to_string(),
        tags: Vec::new(),
        created_at: created_at.to_string(),
        last_accessed: last_accessed.to_string(),
    }
}

#[test]
fn rendering_then_decoding_restores_the_store() {
    let mut config = Config::default();
    config
        .add_mark(
            "docs".to_string(),
            "/home/u/docs".to_string(),
            vec!["work".to_string(), "text".to_string()],
            1_700_000_000,
            true,
        )
        .unwrap();
    config
        .add_mark("api".to_string(), "/srv/api".to_string(), Vec::new(), 1_700_000_100, true)
        .unwrap();
    config.touch("/srv/api", 1_700_000_500);

    let raw = config.to_raw();
    let restored = Config::from_raw(&raw).unwrap();

    assert_eq!(restored.marks.len(), config.marks.len());
    for (a, b) in restored.marks.iter().zip(config.marks.iter()) {
        assert_eq!(a.path, b.path);
        assert_eq!(a.mark.name, b.mark.name);
        assert_eq!(a.mark.tags, b.mark.tags);
        assert_eq!(a.mark.created_at, b.mark.created_at);
        assert_eq!(a.mark.last_accessed, b.mark.last_accessed);
    }
    assert_eq!(restored.settings.run_init_scripts, config.settings.run_init_scripts);

    // re-rendering the restored store reproduces the document
    let raw2 = restored.to_raw();
    assert_eq!(raw2.marks.len(), raw.marks.len());
    for (a, b) in raw2.marks.iter().zip(raw.marks.iter()) {
        assert_eq!(a.path, b.path);
        assert_eq!(a.name, b.name);
        assert_eq!(a.tags, b.tags);
        assert_eq!(a.created_at, b.created_at);
        assert_eq!(a.last_accessed, b.last_accessed);
    }
    assert_eq!(raw2.run_init_scripts, raw.run_init_scripts);
}

#[test]
fn timestamps_render_as_rfc3339() {
    let mut config = Config::default();
    config.add_mark("epoch".to_string(), "/e".to_string(), Vec::new(), 0, true).unwrap();
    let raw = config.to_raw();
    assert_eq!(raw.marks[0].created_at, "1970-01-01T00:00:00Z");
    assert_eq!(raw.marks[0].last_accessed, "1970-01-01T00:00:00Z");

    let mut config2 = Config::default();
    config2
        .add_mark("later".to_string(), "/l".to_string(), Vec::new(), 1_700_000_000, true)
        .unwrap();
    let raw2 = config2.to_raw();
    let reparsed = chrono::DateTime::parse_from_rfc3339(&raw2.marks[0].created_at).unwrap();
    assert_eq!(reparsed.timestamp(), 1_700_000_000);
}

#[test]
fn display_rendering_matches_the_persisted_form() {
    assert_eq!(render_timestamp(0), "1970-01-01T00:00:00Z");
    // both ends of the handled range still carry four-digit years
    assert_eq!(render_timestamp(TS_MIN), "0000-01-01T00:00:00Z");
    assert_eq!(render_timestamp(TS_MAX), "9999-12-31T23:59:59Z");
    for t in [TS_MIN, -1, 0, 1, TS_MAX] {
        let parsed = chrono::DateTime::parse_from_rfc3339(&render_timestamp(t)).unwrap();
        assert_eq!(parsed.timestamp(), t);
    }
}

#[test]
fn round_trip_holds_at_the_range_ends() {
    let mut config = Config::default();
    config.add_mark("old".to_string(), "/old".to_string(), Vec::new(), TS_MIN, true).unwrap();
    config.add_mark("new".to_string(), "/new".to_string(), Vec::new(), TS_MAX, true).unwrap();
    let restored = Config::from_raw(&config.to_raw()).unwrap();
    assert_eq!(restored.marks[0].mark.created_at, TS_MIN);
    assert_eq!(restored.marks[1].mark.created_at, TS_MAX);
}

#[test]
fn decoding_accepts_external_rfc3339_offsets() {
    let raw = RawConfig {
        marks: vec![raw_mark(
            "/p",
            "p",
            "2018-01-26T18:30:09+01:00",
            "2018-01-26T18:30:09.453+00:00",
        )],
        run_init_scripts: true,
    };
    let config = Config::from_raw(&raw).unwrap();
    let expected = chrono::DateTime::parse_from_rfc3339("2018-01-26T18:30:09+01:00")
        .unwrap()
        .timestamp();
    assert_eq!(config.marks[0].mark.created_at, expected);
}

#[test]
fn decoding_rejects_bad_timestamps() {
    let raw = RawConfig {
        marks: vec![raw_mark("/p", "p", "yesterday", "1970-01-01T00:00:00Z")],
        run_init_scripts: true,
    };
    match Config::from_raw(&raw) {
        Err(RawConfigError::InvalidTimestamp(s)) => assert_eq!(s, "yesterday"),
        other => panic!("expected InvalidTimestamp, got {:?}", other),
    }
}

#[test]
fn decoding_rejects_repeated_paths() {
    let raw = RawConfig {
        marks: vec![
            raw_mark("/p", "a", "1970-01-01T00:00:00Z", "1970-01-01T00:00:00Z"),
            raw_mark("/p", "b", "1970-01-01T00:00:00Z", "1970-01-01T00:00:00Z"),
        ],
        run_init_scripts: false,
    };
    match Config::from_raw(&raw) {
        Err(RawConfigError::DuplicatePath(p)) => assert_eq!(p, "/p"),
        other => panic!("expected DuplicatePath, got {:?}", other),
    }
}
