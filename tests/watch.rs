use johnfig::{ChangeEvent, Config, ConfigBuilder, Error, EventKind, Value, ValueMap, WatchAction, WatchState};

fn finder() -> johnfig::ConfigFinder {
    ConfigBuilder::new().with_name_pattern("*.{ext}".to_string()).build(&vec!["json".to_string()]).unwrap()
}

fn event(kind: EventKind, name: &str) -> ChangeEvent {
    ChangeEvent { kind, paths: vec![format!("/d/{}", name)] }
}

#[test]
fn repeat_within_window_reloads_once() {
    let f = finder();
    let mut w = WatchState::new();
    assert_eq!(w.on_event(&event(EventKind::Modify, "a.json"), 1000, &f), WatchAction::Reload);
    assert_eq!(w.on_event(&event(EventKind::Modify, "a.json"), 1200, &f), WatchAction::Ignore);
}

#[test]
fn repeat_after_window_reloads_again() {
    let f = finder();
    let mut w = WatchState::new();
    assert_eq!(w.on_event(&event(EventKind::Modify, "a.json"), 1000, &f), WatchAction::Reload);
    assert_eq!(w.on_event(&event(EventKind::Modify, "a.json"), 1600, &f), WatchAction::Reload);
}

#[test]
fn different_event_is_not_a_repeat() {
    let f = finder();
    let mut w = WatchState::new();
    assert_eq!(w.on_event(&event(EventKind::Modify, "a.json"), 1000, &f), WatchAction::Reload);
    assert_eq!(w.on_event(&event(EventKind::Create, "a.json"), 1001, &f), WatchAction::Reload);
    assert_eq!(w.on_event(&event(EventKind::Create, "b.json"), 1002, &f), WatchAction::Reload);
}

#[test]
fn irrelevant_events_are_ignored() {
    let f = finder();
    let mut w = WatchState::new();
    assert_eq!(w.on_event(&event(EventKind::Other, "a.json"), 0, &f), WatchAction::Ignore);
    assert_eq!(w.on_event(&event(EventKind::Remove, "a.txt"), 0, &f), WatchAction::Ignore);
    assert_eq!(w.on_event(&event(EventKind::Remove, "a.json"), 0, &f), WatchAction::Reload);
}

#[test]
fn cancelled_watch_never_reloads() {
    let f = finder();
    let mut w = WatchState::new();
    w.cancel();
    assert!(w.is_cancelled());
    assert_eq!(w.on_event(&event(EventKind::Modify, "a.json"), 0, &f), WatchAction::Ignore);
    assert_eq!(w.on_event(&event(EventKind::Create, "b.json"), 10_000, &f), WatchAction::Ignore);
    w.cancel();
    assert!(w.is_cancelled());
    let mut current = Config::new();
    current.set("k".to_string(), Value::I64(1));
    let mut fresh = ValueMap::new();
    fresh.insert("k".to_string(), Value::I64(2));
    assert!(!w.finish_reload(&mut current, Ok(Config::from_table(fresh))));
    assert_eq!(current.get("k"), Some(&Value::I64(1)));
}

#[test]
fn failed_reload_keeps_snapshot() {
    let w = WatchState::new();
    let mut current = Config::new();
    current.set("k".to_string(), Value::I64(1));
    let failed = Err(Error::Decode { path: "/d/a.json".to_string(), message: "bad".to_string() });
    assert!(!w.finish_reload(&mut current, failed));
    assert_eq!(current.get("k"), Some(&Value::I64(1)));
    let mut fresh = ValueMap::new();
    fresh.insert("k".to_string(), Value::I64(2));
    assert!(w.finish_reload(&mut current, Ok(Config::from_table(fresh))));
    assert_eq!(current.get("k"), Some(&Value::I64(2)));
}

#[test]
fn window_runs_from_the_previous_event() {
    let f = finder();
    let mut w = WatchState::new();
    assert_eq!(w.on_event(&event(EventKind::Modify, "a.json"), 0, &f), WatchAction::Reload);
    assert_eq!(w.on_event(&event(EventKind::Modify, "a.json"), 400, &f), WatchAction::Ignore);
    assert_eq!(w.on_event(&event(EventKind::Modify, "a.json"), 800, &f), WatchAction::Ignore);
    assert_eq!(w.on_event(&event(EventKind::Modify, "a.json"), 1300, &f), WatchAction::Reload);
}
