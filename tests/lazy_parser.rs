use tracing_archive::eager;
use tracing_archive::{filters, FieldFilter, ParseError};

#[test]
fn lazy_filters_pull_one_at_a_time() {
    let mut it = filters("a[b{c=d},e]=info,f");
    let first = it.next().unwrap().unwrap();
    assert_eq!(first.target, "a");
    assert_eq!(first.level, Some("info"));
    let mut spans = first.span.unwrap();
    let b = spans.next().unwrap().unwrap();
    assert_eq!(b.name, "b");
    let mut fields = b.fields.unwrap();
    assert_eq!(
        fields.next().unwrap().unwrap(),
        FieldFilter { name: "c", value: Some("d") }
    );
    assert!(fields.next().is_none());
    let e = spans.next().unwrap().unwrap();
    assert_eq!(e.name, "e");
    assert!(e.fields.is_none());
    assert!(spans.next().is_none());
    let second = it.next().unwrap().unwrap();
    assert_eq!(second.target, "f");
    assert!(second.span.is_none());
    assert_eq!(second.level, None);
    assert!(it.next().is_none());
}

#[test]
fn empty_text_has_no_filters() {
    assert!(filters("").next().is_none());
    assert_eq!(eager::filters("").unwrap(), vec![]);
}

#[test]
fn error_ends_the_sequence() {
    let mut it = filters("a}b,c");
    assert!(matches!(it.next(), Some(Err(ParseError::BadSyntax))));
    assert!(it.next().is_none());
}

#[test]
fn reserved_syntax_ends_the_sequence() {
    let mut it = filters("a,b/c");
    assert!(matches!(it.next(), Some(Err(ParseError::ReservedSyntax))));
    assert!(it.next().is_none());
}

#[test]
fn reserved_syntax_anywhere() {
    assert_eq!(eager::filters("a[b{c=\"d\"}]"), Err(ParseError::ReservedSyntax));
    assert_eq!(eager::filters("x,y,z/"), Err(ParseError::ReservedSyntax));
    assert_eq!(eager::filters("/"), Err(ParseError::ReservedSyntax));
}

#[test]
fn bad_syntax_by_position() {
    assert_eq!(eager::filters("a]"), Err(ParseError::BadSyntax));
    assert_eq!(eager::filters("a[b"), Err(ParseError::BadSyntax));
    assert_eq!(eager::filters("[b{c]"), Err(ParseError::BadSyntax));
    assert_eq!(eager::filters("[b{c=d=e}]"), Err(ParseError::BadSyntax));
    assert_eq!(eager::filters("a=b=c"), Err(ParseError::BadSyntax));
    assert_eq!(eager::filters("a[b]c"), Err(ParseError::BadSyntax));
    assert_eq!(eager::filters("a=info[x]"), Err(ParseError::BadSyntax));
}

#[test]
fn empty_parts_are_empty_slices() {
    let v = eager::filters(",").unwrap();
    assert_eq!(v.len(), 1);
    assert_eq!(v[0].target, "");
    let v = eager::filters("[]=").unwrap();
    assert_eq!(v[0].target, "");
    assert_eq!(v[0].span, Some(vec![]));
    assert_eq!(v[0].level, Some(""));
}

fn rebuild(v: &[eager::Filter<'_>]) -> String {
    let mut out = String::new();
    for (i, f) in v.iter().enumerate() {
        if i > 0 {
            out.push(',');
        }
        out.push_str(f.target);
        if let Some(spans) = &f.span {
            out.push('[');
            for (j, s) in spans.iter().enumerate() {
                if j > 0 {
                    out.push(',');
                }
                out.push_str(s.name);
                if let Some(fields) = &s.fields {
                    out.push('{');
                    for (k, fd) in fields.iter().enumerate() {
                        if k > 0 {
                            out.push(',');
                        }
                        out.push_str(fd.name);
                        if let Some(v) = fd.value {
                            out.push('=');
                            out.push_str(v);
                        }
                    }
                    out.push('}');
                }
            }
            out.push(']');
        }
        if let Some(l) = f.level {
            out.push('=');
            out.push_str(l);
        }
    }
    out
}

#[test]
fn filters_borrow_the_whole_text() {
    for s in [
        "target[span{field=value}]=level",
        "a[b{c=d,e},f]=info,g,=warn",
        "[span_b{name=bob}]",
        "ünï[cödé{x=ÿ}]=ïnfo",
    ] {
        let v = eager::filters(s).unwrap();
        assert_eq!(rebuild(&v), s);
    }
}

#[test]
fn trailing_comma_is_dropped() {
    let v = eager::filters("a,").unwrap();
    assert_eq!(v.len(), 1);
    assert_eq!(rebuild(&v), "a");
}
