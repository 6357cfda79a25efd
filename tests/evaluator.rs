use std::sync::Arc;
use tracing_archive::archive::{Event, Field, Level, Meta, Span};
use tracing_archive::filter::{
    contains_bytes, render_leaf, Directive, EventFilter, FieldDirective, LevelFilter,
};

fn meta(target: &str, name: &str, level: Level) -> Meta {
    Meta { target: target.to_string(), name: name.to_string(), level }
}

fn event(target: &str, level: Level) -> Event {
    Event::new(meta(target, "ev", level), 0, None)
}

fn target_dir(t: &str, l: Option<LevelFilter>) -> Directive {
    Directive::new(Some(t.to_string()), None, None, l)
}

#[test]
fn empty_set_admits_all() {
    let f = EventFilter { directives: vec![] };
    assert!(f.includes(&event("a", Level::Trace)));
    assert!(f.includes(&event("", Level::Error)));
    assert!(!f.excludes(&event("b", Level::Debug)));
}

#[test]
fn target_and_level() {
    let f = EventFilter { directives: vec![target_dir("net", Some(LevelFilter::Info))] };
    assert!(f.includes(&event("tokio::net", Level::Info)));
    assert!(f.includes(&event("tokio::net", Level::Error)));
    assert!(!f.includes(&event("tokio::net", Level::Debug)));
    assert!(!f.includes(&event("tokio::io", Level::Error)));
}

#[test]
fn later_directives_override() {
    let f = EventFilter {
        directives: vec![
            target_dir("app", Some(LevelFilter::Trace)),
            target_dir("app::db", Some(LevelFilter::Off)),
        ],
    };
    assert!(f.includes(&event("app::net", Level::Trace)));
    assert!(!f.includes(&event("app::db", Level::Error)));
    let g = EventFilter {
        directives: vec![
            target_dir("app::db", Some(LevelFilter::Off)),
            target_dir("app", Some(LevelFilter::Trace)),
        ],
    };
    assert!(g.includes(&event("app::db", Level::Error)));
}

#[test]
fn no_level_means_trace() {
    let d = target_dir("app", None);
    assert_eq!(d.level, LevelFilter::Trace);
    let f = EventFilter { directives: vec![d] };
    assert!(f.includes(&event("app", Level::Trace)));
    assert!(f.includes(&event("app", Level::Error)));
    assert!(!f.includes(&event("other", Level::Error)));
}

#[test]
fn span_and_field_clauses() {
    let mut outer = Span::new(meta("app", "request", Level::Info), None);
    outer.record_field("user", Field::Str("bob".to_string()));
    let inner = Span::new(meta("app", "query", Level::Info), Some(Arc::new(outer)));
    let mut e = Event::new(meta("app::db", "ev", Level::Info), 0, Some(Arc::new(inner)));
    e.record_field("rows", Field::U64(42));

    let by_span = EventFilter {
        directives: vec![Directive::new(None, Some("quest".to_string()), None, Some(LevelFilter::Info))],
    };
    assert!(by_span.includes(&e));
    let other_span = EventFilter {
        directives: vec![Directive::new(None, Some("reply".to_string()), None, None)],
    };
    assert!(!other_span.includes(&e));

    let field = |name: &str, value: Option<&str>| EventFilter {
        directives: vec![Directive::new(
            None,
            None,
            Some(FieldDirective { name: name.to_string(), value: value.map(|v| v.to_string()) }),
            None,
        )],
    };
    assert!(field("rows", Some("42")).includes(&e));
    assert!(!field("rows", Some("43")).includes(&e));
    assert!(field("use", Some("\"bob\"")).includes(&e));
    assert!(field("user", None).includes(&e));
    assert!(!field("missing", None).includes(&e));
}

#[test]
fn leaves_render_as_debug_text() {
    assert_eq!(render_leaf(&Field::I64(-42)), b"-42".to_vec());
    assert_eq!(render_leaf(&Field::I64(i64::MIN)), b"-9223372036854775808".to_vec());
    assert_eq!(render_leaf(&Field::U64(0)), b"0".to_vec());
    assert_eq!(render_leaf(&Field::U64(u64::MAX)), b"18446744073709551615".to_vec());
    assert_eq!(render_leaf(&Field::Bool(true)), b"true".to_vec());
    assert_eq!(render_leaf(&Field::Str("a \"b\"".to_string())), b"\"a \\\"b\\\"\"".to_vec());
    assert_eq!(render_leaf(&Field::Error("oops".to_string())), b"oops".to_vec());
    assert_eq!(render_leaf(&Field::Debug("Some(1)".to_string())), b"Some(1)".to_vec());
}

#[test]
fn substring_search() {
    assert!(contains_bytes(b"tokio::net", b"net"));
    assert!(contains_bytes(b"abc", b""));
    assert!(!contains_bytes(b"ab", b"abc"));
    assert!(!contains_bytes(b"tokio", b"io:"));
}

#[test]
fn level_tokens() {
    assert_eq!(LevelFilter::parse("INFO"), Some(LevelFilter::Info));
    assert_eq!(LevelFilter::parse("Trace"), Some(LevelFilter::Trace));
    assert_eq!(LevelFilter::parse("off"), Some(LevelFilter::Off));
    assert_eq!(LevelFilter::parse("0"), Some(LevelFilter::Off));
    assert_eq!(LevelFilter::parse("3"), Some(LevelFilter::Info));
    assert_eq!(LevelFilter::parse("5"), Some(LevelFilter::Trace));
    assert_eq!(LevelFilter::parse("6"), None);
    assert_eq!(LevelFilter::parse("warning"), None);
    assert_eq!(LevelFilter::parse(""), None);
}

#[test]
fn directive_text_to_event_filter() {
    let f = EventFilter::parse("net=warn,[req{user=bob}]").unwrap();
    assert_eq!(f.directives.len(), 2);
    let d0 = &f.directives[0];
    assert_eq!(d0.target.as_deref(), Some("net"));
    assert!(d0.span.is_none());
    assert!(d0.field.is_none());
    assert_eq!(d0.level, LevelFilter::Warn);
    let d1 = &f.directives[1];
    assert!(d1.target.is_none());
    assert_eq!(d1.span.as_deref(), Some("req"));
    let fd = d1.field.as_ref().unwrap();
    assert_eq!(fd.name, "user");
    assert_eq!(fd.value.as_deref(), Some("bob"));
    assert_eq!(d1.level, LevelFilter::Trace);

    assert!(f.includes(&event("tokio::net", Level::Warn)));
    assert!(!f.includes(&event("tokio::net", Level::Info)));
}

#[test]
fn directive_text_errors() {
    assert!(matches!(EventFilter::parse("a=loud"), Err(tracing_archive::ParseError::BadSyntax)));
    assert!(matches!(EventFilter::parse("a[b"), Err(tracing_archive::ParseError::BadSyntax)));
    assert!(matches!(EventFilter::parse("a/b"), Err(tracing_archive::ParseError::ReservedSyntax)));
    assert_eq!(EventFilter::parse("").unwrap().directives.len(), 0);
}

#[test]
fn severity_word_target_is_no_clause() {
    let f = EventFilter::parse("info").unwrap();
    assert_eq!(f.directives.len(), 1);
    assert!(f.directives[0].target.is_none());
    assert_eq!(f.directives[0].level, LevelFilter::Trace);
    assert!(f.includes(&event("anything", Level::Trace)));
    let g = EventFilter::parse("WARN=error").unwrap();
    assert!(g.directives[0].target.is_none());
    assert_eq!(g.directives[0].level, LevelFilter::Error);
    let h = EventFilter::parse("3").unwrap();
    assert!(h.directives[0].target.is_none());
    let k = EventFilter::parse("off").unwrap();
    assert_eq!(k.directives[0].target.as_deref(), Some("off"));
}

#[test]
fn bare_equals_means_trace() {
    let f = EventFilter::parse("app=").unwrap();
    assert_eq!(f.directives[0].target.as_deref(), Some("app"));
    assert_eq!(f.directives[0].level, LevelFilter::Trace);
    assert!(f.includes(&event("app", Level::Trace)));
    assert!(!f.includes(&event("lib", Level::Error)));
}
