use std::sync::Arc;
use tracing_archive::archive::{Archive, Event, Field, Level, Meta, Span};

fn meta(target: &str, name: &str, level: Level) -> Meta {
    Meta { target: target.to_string(), name: name.to_string(), level }
}

#[test]
fn repeated_recording_makes_one_multiple() {
    let mut e = Event::new(meta("app", "ev", Level::Info), 7, None);
    e.record_field("x", Field::I64(1));
    e.record_field("y", Field::Bool(true));
    e.record_field("x", Field::U64(2));
    e.record_field("x", Field::Str("three".to_string()));
    assert_eq!(
        e.field("x"),
        Some(&Field::Multiple(vec![
            Field::I64(1),
            Field::U64(2),
            Field::Str("three".to_string())
        ]))
    );
    assert_eq!(e.field("y"), Some(&Field::Bool(true)));
    assert_eq!(e.field("z"), None);
    let fields = e.fields();
    assert_eq!(fields.len(), 2);
    assert_eq!(fields.get_index(0).map(|(n, _)| n.as_str()), Some("x"));
    assert_eq!(fields.get_index(1).map(|(n, f)| (n.as_str(), f)), Some(("y", &Field::Bool(true))));
    assert!(fields.get_index(2).is_none());
    assert_eq!(e.timestamp(), 7);
}

#[test]
fn with_debug_visits_each_leaf_in_order() {
    let f = Field::Multiple(vec![
        Field::I64(-1),
        Field::Debug("d".to_string()),
        Field::Bool(false),
    ]);
    let seen = f.with_debug(|x: &Field| format!("{:?}", x));
    assert_eq!(seen, vec!["I64(-1)", "Debug(\"d\")", "Bool(false)"]);
    let single = Field::U64(9).with_debug(|x: &Field| format!("{:?}", x));
    assert_eq!(single, vec!["U64(9)"]);
}

#[test]
fn span_chain_is_shared() {
    let mut outer = Span::new(meta("app", "outer", Level::Info), None);
    outer.record_field("id", Field::U64(1));
    let outer = Arc::new(outer);
    let inner = Arc::new(Span::new(meta("app::db", "inner", Level::Debug), Some(outer.clone())));
    let e1 = Event::new(meta("app::db", "q", Level::Warn), 1, Some(inner.clone()));
    let e2 = Event::new(meta("app::db", "r", Level::Warn), 2, Some(inner.clone()));
    let s1 = e1.span().unwrap();
    let s2 = e2.span().unwrap();
    assert!(std::ptr::eq(s1, s2));
    assert_eq!(s1.meta().name, "inner");
    let p = s1.parent().unwrap();
    assert!(std::ptr::eq(p, &*outer));
    assert_eq!(p.field("id"), Some(&Field::U64(1)));
    assert!(p.parent().is_none());
}

#[test]
fn snapshot_takes_pending_in_order() {
    let mut a = Archive::new();
    a.publish(Arc::new(Event::new(meta("a", "1", Level::Info), 1, None)));
    a.publish(Arc::new(Event::new(meta("a", "2", Level::Info), 2, None)));
    assert_eq!(a.events().len(), 0);
    a.snapshot();
    a.publish(Arc::new(Event::new(meta("a", "3", Level::Info), 3, None)));
    let stamps: Vec<i64> = a.events().iter().map(|e| e.timestamp()).collect();
    assert_eq!(stamps, vec![1, 2]);
    a.snapshot();
    a.snapshot();
    let stamps: Vec<i64> = a.events().iter().map(|e| e.timestamp()).collect();
    assert_eq!(stamps, vec![1, 2, 3]);
}

#[test]
fn duplicate_copies_values() {
    let f = Field::Multiple(vec![Field::Str("a".to_string()), Field::I64(2)]);
    assert_eq!(f.duplicate(), f);
    let mut s = Span::new(meta("t", "n", Level::Debug), None);
    s.record_field("k", Field::Bool(true));
    let mut c = s.duplicate();
    c.record_field("k", Field::Bool(false));
    assert_eq!(s.field("k"), Some(&Field::Bool(true)));
    assert_eq!(c.field("k"), Some(&Field::Multiple(vec![Field::Bool(true), Field::Bool(false)])));
    assert_eq!(c.meta().name, "n");
}

#[test]
fn widget_shows_filter_by_default() {
    let w = tracing_archive::Widget::default();
    assert!(w.filter);
}

#[test]
fn taken_events_come_back_as_left() {
    let mut a = Archive::new();
    a.publish(Arc::new(Event::new(meta("a", "1", Level::Info), 1, None)));
    a.publish(Arc::new(Event::new(meta("a", "2", Level::Info), 2, None)));
    a.snapshot();
    let mut held = a.take_events();
    assert_eq!(a.events().len(), 0);
    held.remove(0);
    a.restore_events(held);
    a.publish(Arc::new(Event::new(meta("a", "3", Level::Info), 3, None)));
    a.snapshot();
    let stamps: Vec<i64> = a.events().iter().map(|e| e.timestamp()).collect();
    assert_eq!(stamps, vec![2, 3]);
}

#[test]
fn a_name_recorded_once_holds_the_bare_value() {
    let mut s = Span::new(meta("t", "n", Level::Info), None);
    s.record_field("k", Field::Str("v".to_string()));
    assert_eq!(s.field("k"), Some(&Field::Str("v".to_string())));
}
