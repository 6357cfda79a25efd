use vstd::prelude::*;
use vstd::string::StringSliceAdditionalSpecFns;
use crate::syntax::{
    ParseError, is_lbrack, is_rbrack, is_lbrace, is_rbrace, is_equal, is_comma, is_syntax,
    has_reserved, syntax_pos, byte_pos, tail, starts, lemma_syntax_pos_facts, lemma_byte_pos_facts,
    find_any_syntax, find_syntax, find_reserved, split_ascii,
};

verus! {

/// A filter as byte slices of the directive string: `target[spans]=level`.
pub struct FilterModel {
    pub target: Seq<u8>,
    pub span: Option<Seq<u8>>,
    pub level: Option<Seq<u8>>,
}

/// A span filter as byte slices: `name{fields}`.
pub struct SpanModel {
    pub name: Seq<u8>,
    pub fields: Option<Seq<u8>>,
}

/// A field filter as byte slices: `name=value`.
pub struct FieldModel {
    pub name: Seq<u8>,
    pub value: Option<Seq<u8>>,
}

pub open spec fn opt_bytes(o: Option<&str>) -> Option<Seq<u8>> {
    match o {
        Some(s) => Some(s.spec_bytes()),
        None => None,
    }
}

/// What follows a list item: one comma, or the end.
pub open spec fn after_comma(r: Seq<u8>) -> Option<Seq<u8>> {
    if starts(r, 0x2c) {
        Some(tail(r, 1))
    } else if r.len() == 0 {
        Some(r)
    } else {
        None
    }
}

/// A bracketed part `open ... close` at the start of `r`, if `r` starts with `open`:
/// `Some((Some(inside), rest))`; `Some((None, r))` when it does not; `None` when `close` is missing.
pub open spec fn bracketed(r: Seq<u8>, open: u8, close: u8) -> Option<(Option<Seq<u8>>, Seq<u8>)> {
    if starts(r, open) {
        let t = tail(r, 1);
        let q = byte_pos(t, close) as int;
        if q == t.len() {
            None
        } else {
            Some((Some(t.subrange(0, q)), tail(t, q + 1)))
        }
    } else {
        Some((None, r))
    }
}

/// A `=value` part at the start of `r`, which must then end at a comma or the end.
pub open spec fn assigned(r: Seq<u8>) -> Option<(Option<Seq<u8>>, Seq<u8>)> {
    if starts(r, 0x3d) {
        let t = tail(r, 1);
        let p = syntax_pos(t) as int;
        if p < t.len() && !is_comma(t[p]) {
            None
        } else {
            Some((Some(t.subrange(0, p)), tail(t, p)))
        }
    } else {
        Some((None, r))
    }
}

/// The target at the start of a directive, and what follows it.
pub open spec fn filter_target(s: Seq<u8>) -> Option<(Seq<u8>, Seq<u8>)> {
    let p = syntax_pos(s) as int;
    if p < s.len() && (is_rbrack(s[p]) || is_lbrace(s[p]) || is_rbrace(s[p])) {
        None
    } else {
        Some((s.subrange(0, p), tail(s, p)))
    }
}

/// The level after a target and its spans: none before a comma or the end, else `=level`.
pub open spec fn filter_level(r: Seq<u8>) -> Option<(Option<Seq<u8>>, Seq<u8>)> {
    if r.len() == 0 || starts(r, 0x2c) {
        Some((None, r))
    } else if starts(r, 0x3d) {
        assigned(r)
    } else {
        None
    }
}

/// One pull from a non-empty directive string: the filter read and what is left.
pub open spec fn filter_step(s: Seq<u8>) -> (Result<FilterModel, ParseError>, Seq<u8>) {
    if has_reserved(s) {
        (Err(ParseError::ReservedSyntax), seq![])
    } else {
        match filter_target(s) {
            None => (Err(ParseError::BadSyntax), seq![]),
            Some((target, r1)) => match bracketed(r1, 0x5b, 0x5d) {
                None => (Err(ParseError::BadSyntax), seq![]),
                Some((span, r2)) => match filter_level(r2) {
                    None => (Err(ParseError::BadSyntax), seq![]),
                    Some((level, r3)) => match after_comma(r3) {
                        None => (Err(ParseError::BadSyntax), seq![]),
                        Some(r4) => (Ok(FilterModel { target, span, level }), r4),
                    },
                },
            },
        }
    }
}

/// The name at the start of a span filter, and what follows it.
pub open spec fn span_name(s: Seq<u8>) -> Option<(Seq<u8>, Seq<u8>)> {
    let p = syntax_pos(s) as int;
    if p < s.len() && (is_lbrack(s[p]) || is_rbrack(s[p]) || is_rbrace(s[p]) || is_equal(s[p])) {
        None
    } else {
        Some((s.subrange(0, p), tail(s, p)))
    }
}

/// One pull from a non-empty span list: the span filter read and what is left.
pub open spec fn span_step(s: Seq<u8>) -> (Result<SpanModel, ParseError>, Seq<u8>) {
    if has_reserved(s) {
        (Err(ParseError::ReservedSyntax), seq![])
    } else {
        match span_name(s) {
            None => (Err(ParseError::BadSyntax), seq![]),
            Some((name, r1)) => match bracketed(r1, 0x7b, 0x7d) {
                None => (Err(ParseError::BadSyntax), seq![]),
                Some((fields, r2)) => match after_comma(r2) {
                    None => (Err(ParseError::BadSyntax), seq![]),
                    Some(r3) => (Ok(SpanModel { name, fields }), r3),
                },
            },
        }
    }
}

/// The name at the start of a field filter, and what follows it.
pub open spec fn field_name(s: Seq<u8>) -> Option<(Seq<u8>, Seq<u8>)> {
    let p = syntax_pos(s) as int;
    if p < s.len() && (is_lbrack(s[p]) || is_rbrack(s[p]) || is_lbrace(s[p]) || is_rbrace(s[p])) {
        None
    } else {
        Some((s.subrange(0, p), tail(s, p)))
    }
}

/// One pull from a non-empty field list: the field filter read and what is left.
pub open spec fn field_step(s: Seq<u8>) -> (Result<FieldModel, ParseError>, Seq<u8>) {
    if has_reserved(s) {
        (Err(ParseError::ReservedSyntax), seq![])
    } else {
        match field_name(s) {
            None => (Err(ParseError::BadSyntax), seq![]),
            Some((name, r1)) => match assigned(r1) {
                None => (Err(ParseError::BadSyntax), seq![]),
                Some((value, r2)) => match after_comma(r2) {
                    None => (Err(ParseError::BadSyntax), seq![]),
                    Some(r3) => (Ok(FieldModel { name, value }), r3),
                },
            },
        }
    }
}

/// Parses a series of filters out of a directive string, one filter per pull.
pub fn filters<'a>(directives: &'a str) -> (r: Filters<'a>)
    ensures
        r@ == directives.spec_bytes(),
{
    Filters { directives }
}

/// Parser of [Filter]s, pulled one at a time with `next`.
#[derive(Debug, Clone)]
pub struct Filters<'a> {
    directives: &'a str,
}

/// A single event filter, `target[span{field=value}]=level`.
///
/// Span directives are not parsed until pulled.
#[derive(Debug, Clone)]
pub struct Filter<'a> {
    pub target: &'a str,
    pub span: Option<SpanFilters<'a>>,
    pub level: Option<&'a str>,
}

/// Parser of [SpanFilter]s.
#[derive(Debug, Clone)]
pub struct SpanFilters<'a> {
    directives: &'a str,
}

/// A single span filter, `[span{field=value}]`.
///
/// Field directives are not parsed until pulled.
#[derive(Debug, Clone)]
pub struct SpanFilter<'a> {
    pub name: &'a str,
    pub fields: Option<FieldFilters<'a>>,
}

/// Parser of [FieldFilter]s.
#[derive(Debug, Clone)]
pub struct FieldFilters<'a> {
    directives: &'a str,
}

/// A single field filter, `{field=value}`.
#[derive(Debug, Clone, PartialEq, Eq)]
pub struct FieldFilter<'a> {
    pub name: &'a str,
    pub value: Option<&'a str>,
}

impl<'a> View for Filters<'a> {
    type V = Seq<u8>;

    closed spec fn view(&self) -> Seq<u8> {
        self.directives.spec_bytes()
    }
}

impl<'a> View for SpanFilters<'a> {
    type V = Seq<u8>;

    closed spec fn view(&self) -> Seq<u8> {
        self.directives.spec_bytes()
    }
}

impl<'a> View for FieldFilters<'a> {
    type V = Seq<u8>;

    closed spec fn view(&self) -> Seq<u8> {
        self.directives.spec_bytes()
    }
}

impl<'a> Filter<'a> {
    pub open spec fn model(&self) -> FilterModel {
        FilterModel {
            target: self.target.spec_bytes(),
            span: match self.span {
                Some(s) => Some(s@),
                None => None,
            },
            level: opt_bytes(self.level),
        }
    }
}

impl<'a> SpanFilter<'a> {
    pub open spec fn model(&self) -> SpanModel {
        SpanModel {
            name: self.name.spec_bytes(),
            fields: match self.fields {
                Some(f) => Some(f@),
                None => None,
            },
        }
    }
}

impl<'a> FieldFilter<'a> {
    pub open spec fn model(&self) -> FieldModel {
        FieldModel { name: self.name.spec_bytes(), value: opt_bytes(self.value) }
    }
}

pub open spec fn filter_result(r: Result<Filter, ParseError>) -> Result<FilterModel, ParseError> {
    match r {
        Ok(f) => Ok(f.model()),
        Err(e) => Err(e),
    }
}

pub open spec fn span_result(r: Result<SpanFilter, ParseError>) -> Result<SpanModel, ParseError> {
    match r {
        Ok(f) => Ok(f.model()),
        Err(e) => Err(e),
    }
}

pub open spec fn field_result(r: Result<FieldFilter, ParseError>) -> Result<FieldModel, ParseError> {
    match r {
        Ok(f) => Ok(f.model()),
        Err(e) => Err(e),
    }
}

/// The empty end of `s`.
fn emptied<'a>(s: &'a str) -> (r: &'a str)
    ensures
        r.spec_bytes().len() == 0,
{
    split_ascii(s, 0).0
}

/// Reads `open ... close` at the start of `s` when it starts with `open`.
fn take_bracketed<'a>(s: &'a str, open: u8, close: u8) -> (r: Option<(Option<&'a str>, &'a str)>)
    requires
        open < 0x80,
        close < 0x80,
    ensures
        match (bracketed(s.spec_bytes(), open, close), r) {
            (None, None) => true,
            (Some(m), Some(x)) => m.0 == opt_bytes(x.0) && m.1 == x.1.spec_bytes(),
            _ => false,
        },
{
    let b = s.as_bytes();
    if b.len() > 0 && b[0] == open {
        let (_, t) = split_ascii(s, 1);
        match find_syntax(t.as_bytes(), close) {
            None => None,
            Some(q) => {
                proof { lemma_byte_pos_facts(t.spec_bytes(), close); }
                let (inside, rest0) = split_ascii(t, q);
                let (_, rest) = split_ascii(rest0, 1);
                proof {
                    assert(tail(rest0.spec_bytes(), 1) =~= tail(t.spec_bytes(), q + 1));
                }
                Some((Some(inside), rest))
            }
        }
    } else {
        Some((None, s))
    }
}

/// Reads `=value` at the start of `s` when it starts with `=`.
fn take_assigned<'a>(s: &'a str) -> (r: Option<(Option<&'a str>, &'a str)>)
    ensures
        match (assigned(s.spec_bytes()), r) {
            (None, None) => true,
            (Some(m), Some(x)) => m.0 == opt_bytes(x.0) && m.1 == x.1.spec_bytes(),
            _ => false,
        },
{
    let b = s.as_bytes();
    if b.len() > 0 && b[0] == 0x3d {
        let (_, t) = split_ascii(s, 1);
        let p = find_any_syntax(t.as_bytes());
        proof { lemma_syntax_pos_facts(t.spec_bytes()); }
        if p < t.len() && t.as_bytes()[p] != 0x2c {
            None
        } else {
            let (v, rest) = split_ascii(t, p);
            Some((Some(v), rest))
        }
    } else {
        Some((None, s))
    }
}

/// Reads a comma at the start of `s`, or accepts its end.
fn take_comma<'a>(s: &'a str) -> (r: Option<&'a str>)
    ensures
        match (after_comma(s.spec_bytes()), r) {
            (None, None) => true,
            (Some(m), Some(x)) => m == x.spec_bytes(),
            _ => false,
        },
{
    let b = s.as_bytes();
    if b.len() > 0 && b[0] == 0x2c {
        Some(split_ascii(s, 1).1)
    } else if b.len() == 0 {
        Some(s)
    } else {
        None
    }
}

impl<'a> Filters<'a> {
    /// Clears what is left and reports bad syntax.
    fn err<T>(&mut self) -> (r: Result<T, ParseError>)
        ensures
            r == Err::<T, ParseError>(ParseError::BadSyntax),
            final(self)@.len() == 0,
    {
        self.directives = emptied(self.directives);
        Err(ParseError::BadSyntax)
    }

    fn target(&mut self) -> (r: Result<&'a str, ParseError>)
        ensures
            match (filter_target(old(self)@), r) {
                (Some(m), Ok(t)) => t.spec_bytes() == m.0 && final(self)@ == m.1,
                (None, Err(e)) => e == ParseError::BadSyntax && final(self)@.len() == 0,
                _ => false,
            },
    {
        let d = self.directives;
        let b = d.as_bytes();
        let i = find_any_syntax(b);
        proof { lemma_syntax_pos_facts(b@); }
        if i < b.len() && (b[i] == 0x5d || b[i] == 0x7b || b[i] == 0x7d) {
            return self.err();
        }
        let (target, rest) = split_ascii(d, i);
        self.directives = rest;
        Ok(target)
    }

    fn span(&mut self) -> (r: Result<Option<SpanFilters<'a>>, ParseError>)
        ensures
            match (bracketed(old(self)@, 0x5b, 0x5d), r) {
                (Some(m), Ok(x)) => m.0 == (match x {
                    Some(f) => Some(f@),
                    None => None::<Seq<u8>>,
                }) && final(self)@ == m.1,
                (None, Err(e)) => e == ParseError::BadSyntax && final(self)@.len() == 0,
                _ => false,
            },
    {
        match take_bracketed(self.directives, 0x5b, 0x5d) {
            None => self.err(),
            Some((inside, rest)) => {
                self.directives = rest;
                match inside {
                    Some(directives) => Ok(Some(SpanFilters { directives })),
                    None => Ok(None),
                }
            },
        }
    }

    fn level(&mut self) -> (r: Result<Option<&'a str>, ParseError>)
        ensures
            match (filter_level(old(self)@), r) {
                (Some(m), Ok(x)) => m.0 == opt_bytes(x) && final(self)@ == m.1,
                (None, Err(e)) => e == ParseError::BadSyntax && final(self)@.len() == 0,
                _ => false,
            },
    {
        let b = self.directives.as_bytes();
        if b.len() == 0 || b[0] == 0x2c {
            return Ok(None);
        }
        if b[0] != 0x3d {
            return self.err();
        }
        match take_assigned(self.directives) {
            None => self.err(),
            Some((level, rest)) => {
                self.directives = rest;
                Ok(level)
            },
        }
    }

    fn comma(&mut self) -> (r: Result<(), ParseError>)
        ensures
            match (after_comma(old(self)@), r) {
                (Some(m), Ok(_)) => final(self)@ == m,
                (None, Err(e)) => e == ParseError::BadSyntax && final(self)@.len() == 0,
                _ => false,
            },
    {
        match take_comma(self.directives) {
            None => self.err(),
            Some(rest) => {
                self.directives = rest;
                Ok(())
            },
        }
    }

    /// Pulls the next filter: `None` once the text is used up or after an error.
    pub fn next(&mut self) -> (r: Option<Result<Filter<'a>, ParseError>>)
        ensures
            old(self)@.len() == 0 ==> r is None && final(self)@ == old(self)@,
            old(self)@.len() > 0 ==> r is Some && filter_result(r->Some_0) == filter_step(
                old(self)@,
            ).0 && final(self)@ == filter_step(old(self)@).1,
    {
        if self.directives.is_empty() {
            return None;
        }
        if find_reserved(self.directives.as_bytes()) {
            let _ = self.err::<()>();
            return Some(Err(ParseError::ReservedSyntax));
        }
        let target = match self.target() {
            Ok(t) => t,
            Err(e) => return Some(Err(e)),
        };
        let span = match self.span() {
            Ok(s) => s,
            Err(e) => return Some(Err(e)),
        };
        let level = match self.level() {
            Ok(l) => l,
            Err(e) => return Some(Err(e)),
        };
        match self.comma() {
            Ok(_) => {},
            Err(e) => return Some(Err(e)),
        }
        Some(Ok(Filter { target, span, level }))
    }
}

impl<'a> SpanFilters<'a> {
    /// Clears what is left and reports bad syntax.
    fn err<T>(&mut self) -> (r: Result<T, ParseError>)
        ensures
            r == Err::<T, ParseError>(ParseError::BadSyntax),
            final(self)@.len() == 0,
    {
        self.directives = emptied(self.directives);
        Err(ParseError::BadSyntax)
    }

    fn name(&mut self) -> (r: Result<&'a str, ParseError>)
        ensures
            match (span_name(old(self)@), r) {
                (Some(m), Ok(t)) => t.spec_bytes() == m.0 && final(self)@ == m.1,
                (None, Err(e)) => e == ParseError::BadSyntax && final(self)@.len() == 0,
                _ => false,
            },
    {
        let d = self.directives;
        let b = d.as_bytes();
        let i = find_any_syntax(b);
        proof { lemma_syntax_pos_facts(b@); }
        if i < b.len() && (b[i] == 0x5b || b[i] == 0x5d || b[i] == 0x7d || b[i] == 0x3d) {
            return self.err();
        }
        let (name, rest) = split_ascii(d, i);
        self.directives = rest;
        Ok(name)
    }

    fn fields(&mut self) -> (r: Result<Option<FieldFilters<'a>>, ParseError>)
        ensures
            match (bracketed(old(self)@, 0x7b, 0x7d), r) {
                (Some(m), Ok(x)) => m.0 == (match x {
                    Some(f) => Some(f@),
                    None => None::<Seq<u8>>,
                }) && final(self)@ == m.1,
                (None, Err(e)) => e == ParseError::BadSyntax && final(self)@.len() == 0,
                _ => false,
            },
    {
        match take_bracketed(self.directives, 0x7b, 0x7d) {
            None => self.err(),
            Some((inside, rest)) => {
                self.directives = rest;
                match inside {
                    Some(directives) => Ok(Some(FieldFilters { directives })),
                    None => Ok(None),
                }
            },
        }
    }

    fn comma(&mut self) -> (r: Result<(), ParseError>)
        ensures
            match (after_comma(old(self)@), r) {
                (Some(m), Ok(_)) => final(self)@ == m,
                (None, Err(e)) => e == ParseError::BadSyntax && final(self)@.len() == 0,
                _ => false,
            },
    {
        match take_comma(self.directives) {
            None => self.err(),
            Some(rest) => {
                self.directives = rest;
                Ok(())
            },
        }
    }

    /// Pulls the next span filter: `None` once the text is used up or after an error.
    pub fn next(&mut self) -> (r: Option<Result<SpanFilter<'a>, ParseError>>)
        ensures
            old(self)@.len() == 0 ==> r is None && final(self)@ == old(self)@,
            old(self)@.len() > 0 ==> r is Some && span_result(r->Some_0) == span_step(
                old(self)@,
            ).0 && final(self)@ == span_step(old(self)@).1,
    {
        if self.directives.is_empty() {
            return None;
        }
        if find_reserved(self.directives.as_bytes()) {
            let _ = self.err::<()>();
            return Some(Err(ParseError::ReservedSyntax));
        }
        let name = match self.name() {
            Ok(t) => t,
            Err(e) => return Some(Err(e)),
        };
        let fields = match self.fields() {
            Ok(s) => s,
            Err(e) => return Some(Err(e)),
        };
        match self.comma() {
            Ok(_) => {},
            Err(e) => return Some(Err(e)),
        }
        Some(Ok(SpanFilter { name, fields }))
    }
}

impl<'a> FieldFilters<'a> {
    /// Clears what is left and reports bad syntax.
    fn err<T>(&mut self) -> (r: Result<T, ParseError>)
        ensures
            r == Err::<T, ParseError>(ParseError::BadSyntax),
            final(self)@.len() == 0,
    {
        self.directives = emptied(self.directives);
        Err(ParseError::BadSyntax)
    }

    fn name(&mut self) -> (r: Result<&'a str, ParseError>)
        ensures
            match (field_name(old(self)@), r) {
                (Some(m), Ok(t)) => t.spec_bytes() == m.0 && final(self)@ == m.1,
                (None, Err(e)) => e == ParseError::BadSyntax && final(self)@.len() == 0,
                _ => false,
            },
    {
        let d = self.directives;
        let b = d.as_bytes();
        let i = find_any_syntax(b);
        proof { lemma_syntax_pos_facts(b@); }
        if i < b.len() && (b[i] == 0x5b || b[i] == 0x5d || b[i] == 0x7b || b[i] == 0x7d) {
            return self.err();
        }
        let (name, rest) = split_ascii(d, i);
        self.directives = rest;
        Ok(name)
    }

    fn value(&mut self) -> (r: Result<Option<&'a str>, ParseError>)
        ensures
            match (assigned(old(self)@), r) {
                (Some(m), Ok(x)) => m.0 == opt_bytes(x) && final(self)@ == m.1,
                (None, Err(e)) => e == ParseError::BadSyntax && final(self)@.len() == 0,
                _ => false,
            },
    {
        match take_assigned(self.directives) {
            None => self.err(),
            Some((value, rest)) => {
                self.directives = rest;
                Ok(value)
            },
        }
    }

    fn comma(&mut self) -> (r: Result<(), ParseError>)
        ensures
            match (after_comma(old(self)@), r) {
                (Some(m), Ok(_)) => final(self)@ == m,
                (None, Err(e)) => e == ParseError::BadSyntax && final(self)@.len() == 0,
                _ => false,
            },
    {
        match take_comma(self.directives) {
            None => self.err(),
            Some(rest) => {
                self.directives = rest;
                Ok(())
            },
        }
    }

    /// Pulls the next field filter: `None` once the text is used up or after an error.
    pub fn next(&mut self) -> (r: Option<Result<FieldFilter<'a>, ParseError>>)
        ensures
            old(self)@.len() == 0 ==> r is None && final(self)@ == old(self)@,
            old(self)@.len() > 0 ==> r is Some && field_result(r->Some_0) == field_step(
                old(self)@,
            ).0 && final(self)@ == field_step(old(self)@).1,
    {
        if self.directives.is_empty() {
            return None;
        }
        if find_reserved(self.directives.as_bytes()) {
            let _ = self.err::<()>();
            return Some(Err(ParseError::ReservedSyntax));
        }
        let name = match self.name() {
            Ok(t) => t,
            Err(e) => return Some(Err(e)),
        };
        let value = match self.value() {
            Ok(s) => s,
            Err(e) => return Some(Err(e)),
        };
        match self.comma() {
            Ok(_) => {},
            Err(e) => return Some(Err(e)),
        }
        Some(Ok(FieldFilter { name, value }))
    }
}

} // verus!
