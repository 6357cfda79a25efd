//! Eagerly, fully parsed event filters.
use vstd::prelude::*;
use vstd::string::StringSliceAdditionalSpecFns;
use crate::syntax::{
    ParseError, has_reserved, is_reserved, syntax_pos, tail, starts, is_comma, is_rbrack, is_rbrace, lemma_syntax_pos_facts,
};
use crate::lazy;
use crate::lazy::{
    FieldFilter, FieldModel, opt_bytes, after_comma, bracketed, assigned, filter_target,
    filter_level, filter_step, span_name, span_step, field_name, field_step,
};

verus! {

/// A span filter with its fields parsed.
pub struct SpanTree {
    pub name: Seq<u8>,
    pub fields: Option<Seq<FieldModel>>,
}

/// A filter with its spans and their fields parsed.
pub struct FilterTree {
    pub target: Seq<u8>,
    pub span: Option<Seq<SpanTree>>,
    pub level: Option<Seq<u8>>,
}

/// `pre` before the items of `r`, or the error of `r`.
pub open spec fn prepend<A>(pre: Seq<A>, r: Result<Seq<A>, ParseError>) -> Result<Seq<A>, ParseError> {
    match r {
        Ok(v) => Ok(pre + v),
        Err(e) => Err(e),
    }
}

/// The fields of a field list, or its first error.
pub open spec fn parse_fields(s: Seq<u8>) -> Result<Seq<FieldModel>, ParseError>
    decreases s.len(),
{
    if s.len() == 0 {
        Ok(seq![])
    } else {
        let (item, rest) = field_step(s);
        match item {
            Err(e) => Err(e),
            Ok(f) => if rest.len() < s.len() {
                prepend(seq![f], parse_fields(rest))
            } else {
                Err(ParseError::BadSyntax)
            },
        }
    }
}

/// The fields of an optional field list.
pub open spec fn parse_opt_fields(s: Option<Seq<u8>>) -> Result<Option<Seq<FieldModel>>, ParseError> {
    match s {
        None => Ok(None),
        Some(t) => match parse_fields(t) {
            Ok(v) => Ok(Some(v)),
            Err(e) => Err(e),
        },
    }
}

/// The span filters of a span list, each with its fields, or the first error.
pub open spec fn parse_spans(s: Seq<u8>) -> Result<Seq<SpanTree>, ParseError>
    decreases s.len(),
{
    if s.len() == 0 {
        Ok(seq![])
    } else {
        let (item, rest) = span_step(s);
        match item {
            Err(e) => Err(e),
            Ok(m) => match parse_opt_fields(m.fields) {
                Err(e) => Err(e),
                Ok(fields) => if rest.len() < s.len() {
                    prepend(seq![SpanTree { name: m.name, fields }], parse_spans(rest))
                } else {
                    Err(ParseError::BadSyntax)
                },
            },
        }
    }
}

/// The span filters of an optional span list.
pub open spec fn parse_opt_spans(s: Option<Seq<u8>>) -> Result<Option<Seq<SpanTree>>, ParseError> {
    match s {
        None => Ok(None),
        Some(t) => match parse_spans(t) {
            Ok(v) => Ok(Some(v)),
            Err(e) => Err(e),
        },
    }
}

/// The filters of a directive string, each fully parsed, or the first error met.
pub open spec fn parse_all(s: Seq<u8>) -> Result<Seq<FilterTree>, ParseError>
    decreases s.len(),
{
    if s.len() == 0 {
        Ok(seq![])
    } else {
        let (item, rest) = filter_step(s);
        match item {
            Err(e) => Err(e),
            Ok(m) => match parse_opt_spans(m.span) {
                Err(e) => Err(e),
                Ok(span) => if rest.len() < s.len() {
                    prepend(
                        seq![FilterTree { target: m.target, span, level: m.level }],
                        parse_all(rest),
                    )
                } else {
                    Err(ParseError::BadSyntax)
                },
            },
        }
    }
}

proof fn lemma_after_comma_shrinks(r: Seq<u8>)
    ensures
        after_comma(r) matches Some(x) ==> x.len() <= r.len() && (starts(r, 0x2c) ==> x.len() < r.len()),
{
}

proof fn lemma_assigned_shrinks(r: Seq<u8>)
    ensures
        assigned(r) matches Some((v, x)) ==> x.len() <= r.len() && (starts(r, 0x3d) ==> x.len() < r.len()),
{
    if starts(r, 0x3d) {
        lemma_syntax_pos_facts(tail(r, 1));
    }
}

proof fn lemma_bracketed_shrinks(r: Seq<u8>, open: u8, close: u8)
    ensures
        bracketed(r, open, close) matches Some((v, x)) ==> x.len() <= r.len() && (starts(r, open) ==> x.len() < r.len()),
{
    if starts(r, open) {
        crate::syntax::lemma_byte_pos_facts(tail(r, 1), close);
    }
}

/// Each pull of a non-empty field list consumes part of it.
pub proof fn lemma_field_step_shrinks(s: Seq<u8>)
    requires
        s.len() > 0,
    ensures
        field_step(s).1.len() < s.len(),
{
    lemma_syntax_pos_facts(s);
    if let Some((name, r1)) = field_name(s) {
        lemma_assigned_shrinks(r1);
        if let Some((v, r2)) = assigned(r1) {
            lemma_after_comma_shrinks(r2);
        }
    }
}

/// Each pull of a non-empty span list consumes part of it.
pub proof fn lemma_span_step_shrinks(s: Seq<u8>)
    requires
        s.len() > 0,
    ensures
        span_step(s).1.len() < s.len(),
{
    lemma_syntax_pos_facts(s);
    if let Some((name, r1)) = span_name(s) {
        lemma_bracketed_shrinks(r1, 0x7b, 0x7d);
        if let Some((v, r2)) = bracketed(r1, 0x7b, 0x7d) {
            lemma_after_comma_shrinks(r2);
        }
    }
}

/// Each pull of a non-empty directive string consumes part of it.
pub proof fn lemma_filter_step_shrinks(s: Seq<u8>)
    requires
        s.len() > 0,
    ensures
        filter_step(s).1.len() < s.len(),
{
    lemma_syntax_pos_facts(s);
    if let Some((target, r1)) = filter_target(s) {
        lemma_bracketed_shrinks(r1, 0x5b, 0x5d);
        if let Some((v, r2)) = bracketed(r1, 0x5b, 0x5d) {
            lemma_assigned_shrinks(r2);
            if let Some((l, r3)) = filter_level(r2) {
                lemma_after_comma_shrinks(r3);
            }
        }
    }
}

/// A comma that ends a list: one followed by the end of the text, `]` or `}`.
pub open spec fn dangling_comma(s: Seq<u8>) -> bool {
    exists|i: int|
        0 <= i < s.len() && #[trigger] is_comma(s[i]) && (i + 1 == s.len() || is_rbrack(s[i + 1])
            || is_rbrace(s[i + 1]))
}

/// `name=value`, or `name` alone.
pub open spec fn field_text(f: FieldModel) -> Seq<u8> {
    f.name + match f.value {
        Some(v) => seq![0x3du8] + v,
        None => Seq::<u8>::empty(),
    }
}

/// Field filters written back, separated by commas.
pub open spec fn render_fields(fs: Seq<FieldModel>) -> Seq<u8>
    decreases fs.len(),
{
    if fs.len() == 0 {
        seq![]
    } else if fs.len() == 1 {
        field_text(fs[0])
    } else {
        field_text(fs[0]) + seq![0x2cu8] + render_fields(fs.drop_first())
    }
}

/// `name{fields}`, or `name` alone.
pub open spec fn span_text(t: SpanTree) -> Seq<u8> {
    t.name + match t.fields {
        Some(fs) => seq![0x7bu8] + render_fields(fs) + seq![0x7du8],
        None => Seq::<u8>::empty(),
    }
}

/// Span filters written back, separated by commas.
pub open spec fn render_spans(ts: Seq<SpanTree>) -> Seq<u8>
    decreases ts.len(),
{
    if ts.len() == 0 {
        seq![]
    } else if ts.len() == 1 {
        span_text(ts[0])
    } else {
        span_text(ts[0]) + seq![0x2cu8] + render_spans(ts.drop_first())
    }
}

/// `target[spans]=level`, each part after the target when present.
pub open spec fn filter_text(t: FilterTree) -> Seq<u8> {
    t.target + match t.span {
        Some(ss) => seq![0x5bu8] + render_spans(ss) + seq![0x5du8],
        None => Seq::<u8>::empty(),
    } + match t.level {
        Some(l) => seq![0x3du8] + l,
        None => Seq::<u8>::empty(),
    }
}

/// Filters written back, separated by commas.
pub open spec fn render_all(ts: Seq<FilterTree>) -> Seq<u8>
    decreases ts.len(),
{
    if ts.len() == 0 {
        seq![]
    } else if ts.len() == 1 {
        filter_text(ts[0])
    } else {
        filter_text(ts[0]) + seq![0x2cu8] + render_all(ts.drop_first())
    }
}

proof fn lemma_no_dangling_sub(s: Seq<u8>, a: int, b: int)
    requires
        0 <= a <= b <= s.len(),
        b == s.len() || is_rbrack(s[b]) || is_rbrace(s[b]),
        !dangling_comma(s),
    ensures
        !dangling_comma(s.subrange(a, b)),
{
    let t = s.subrange(a, b);
    if dangling_comma(t) {
        let i = choose|i: int|
            0 <= i < t.len() && #[trigger] is_comma(t[i]) && (i + 1 == t.len() || is_rbrack(t[i + 1])
                || is_rbrace(t[i + 1]));
        assert(t[i] == s[a + i]);
        assert(is_comma(s[a + i]));
        if i + 1 < t.len() {
            assert(t[i + 1] == s[a + i + 1]);
        }
    }
}

/// How a pulled list item sits in its text: the item, then a comma and the rest, or the end.
proof fn lemma_item_then_rest(s: Seq<u8>, item: Seq<u8>, r: Seq<u8>, rest: Seq<u8>)
    requires
        s == item + r,
        after_comma(r) == Some(rest),
        !dangling_comma(s),
    ensures
        rest.len() == 0 ==> s == item,
        rest.len() > 0 ==> s == item + seq![0x2cu8] + rest,
        !dangling_comma(rest),
{
    if starts(r, 0x2c) {
        assert(r =~= seq![0x2cu8] + rest);
        assert(s =~= item + seq![0x2cu8] + rest);
        if rest.len() == 0 {
            assert(is_comma(s[s.len() - 1]));
            assert(false);
        }
        lemma_no_dangling_sub(s, item.len() + 1int, s.len() as int);
        assert(s.subrange(item.len() + 1int, s.len() as int) =~= rest);
    } else {
        assert(s =~= item);
    }
}

proof fn lemma_fields_round_trip(s: Seq<u8>)
    requires
        parse_fields(s) is Ok,
        !dangling_comma(s),
    ensures
        render_fields(parse_fields(s)->Ok_0) == s,
    decreases s.len(),
{
    if s.len() > 0 {
        let (item, rest) = field_step(s);
        let f = item->Ok_0;
        let (name, r1) = field_name(s)->Some_0;
        let (value, r2) = assigned(r1)->Some_0;
        lemma_syntax_pos_facts(s);
        assert(s =~= name + r1);
        if starts(r1, 0x3d) {
            let t = tail(r1, 1);
            lemma_syntax_pos_facts(t);
            let p = syntax_pos(t) as int;
            assert(r1 =~= seq![0x3du8] + t.subrange(0, p) + r2);
        }
        assert(s =~= field_text(f) + r2);
        lemma_item_then_rest(s, field_text(f), r2, rest);
        lemma_field_step_shrinks(s);
        if rest.len() > 0 {
            lemma_fields_round_trip(rest);
            let v = parse_fields(rest)->Ok_0;
            assert((seq![f] + v).drop_first() =~= v);
        }
    }
}

proof fn lemma_spans_round_trip(s: Seq<u8>)
    requires
        parse_spans(s) is Ok,
        !dangling_comma(s),
    ensures
        render_spans(parse_spans(s)->Ok_0) == s,
    decreases s.len(),
{
    if s.len() > 0 {
        let (item, rest) = span_step(s);
        let m = item->Ok_0;
        let fields = parse_opt_fields(m.fields)->Ok_0;
        let t = SpanTree { name: m.name, fields };
        let (name, r1) = span_name(s)->Some_0;
        let (inside, r2) = bracketed(r1, 0x7b, 0x7d)->Some_0;
        lemma_syntax_pos_facts(s);
        assert(s =~= name + r1);
        if starts(r1, 0x7b) {
            let u = tail(r1, 1);
            crate::syntax::lemma_byte_pos_facts(u, 0x7d);
            let q = crate::syntax::byte_pos(u, 0x7d) as int;
            let x = u.subrange(0, q);
            assert(r1 =~= seq![0x7bu8] + x + seq![0x7du8] + r2);
            let a: int = name.len() as int + 1;
            assert(s.subrange(a, a + q) =~= x);
            assert(s[a + q] == 0x7d);
            lemma_no_dangling_sub(s, a, a + q);
            lemma_fields_round_trip(x);
        }
        assert(s =~= span_text(t) + r2);
        lemma_item_then_rest(s, span_text(t), r2, rest);
        lemma_span_step_shrinks(s);
        if rest.len() > 0 {
            lemma_spans_round_trip(rest);
            let v = parse_spans(rest)->Ok_0;
            assert((seq![t] + v).drop_first() =~= v);
        }
    }
}

/// Every filter borrows its parts from the text: written back with the bytes between
/// them, the filters give the text again, unless a comma closes a list.
#[verifier::rlimit(60)]
pub proof fn lemma_zero_copy(s: Seq<u8>)
    requires
        parse_all(s) is Ok,
        !dangling_comma(s),
    ensures
        render_all(parse_all(s)->Ok_0) == s,
    decreases s.len(),
{
    if s.len() > 0 {
        let (item, rest) = filter_step(s);
        let m = item->Ok_0;
        let span = parse_opt_spans(m.span)->Ok_0;
        let t = FilterTree { target: m.target, span, level: m.level };
        let (target, r1) = filter_target(s)->Some_0;
        let (inside, r2) = bracketed(r1, 0x5b, 0x5d)->Some_0;
        let (level, r3) = filter_level(r2)->Some_0;
        lemma_syntax_pos_facts(s);
        assert(s =~= target + r1);
        let sp = match span {
            Some(ss) => seq![0x5bu8] + render_spans(ss) + seq![0x5du8],
            None => Seq::<u8>::empty(),
        };
        if starts(r1, 0x5b) {
            let u = tail(r1, 1);
            crate::syntax::lemma_byte_pos_facts(u, 0x5d);
            let q = crate::syntax::byte_pos(u, 0x5d) as int;
            let x = u.subrange(0, q);
            assert(r1 =~= seq![0x5bu8] + x + seq![0x5du8] + r2);
            let a: int = target.len() as int + 1;
            assert(s.subrange(a, a + q) =~= x);
            assert(s[a + q] == 0x5d);
            lemma_no_dangling_sub(s, a, a + q);
            lemma_spans_round_trip(x);
            assert(r1 =~= sp + r2);
        } else {
            assert(r1 =~= sp + r2);
        }
        if starts(r2, 0x3d) {
            let u = tail(r2, 1);
            lemma_syntax_pos_facts(u);
            let p = syntax_pos(u) as int;
            assert(r2 =~= seq![0x3du8] + u.subrange(0, p) + r3);
        } else {
            assert(r2 =~= r3);
        }
        assert(s =~= filter_text(t) + r3);
        lemma_item_then_rest(s, filter_text(t), r3, rest);
        lemma_filter_step_shrinks(s);
        if rest.len() > 0 {
            lemma_zero_copy(rest);
            let v = parse_all(rest)->Ok_0;
            assert((seq![t] + v).drop_first() =~= v);
        }
    }
}

/// `r` is the end of `s`.
pub open spec fn is_suffix(r: Seq<u8>, s: Seq<u8>) -> bool {
    r.len() <= s.len() && forall|i: int| 0 <= i < r.len() ==> #[trigger] r[i] == s[s.len() - r.len() + i]
}

proof fn lemma_clean_piece(s: Seq<u8>, r: Seq<u8>, off: int)
    requires
        !has_reserved(s),
        0 <= off,
        off + r.len() <= s.len(),
        forall|i: int| 0 <= i < r.len() ==> #[trigger] r[i] == s[off + i],
    ensures
        !has_reserved(r),
{
    if has_reserved(r) {
        let i = choose|i: int| 0 <= i < r.len() && #[trigger] is_reserved(r[i]);
        assert(r[i] == s[off + i]);
    }
}

proof fn lemma_assigned_suffix(r: Seq<u8>)
    ensures
        assigned(r) matches Some((v, x)) ==> is_suffix(x, r),
{
    if starts(r, 0x3d) {
        lemma_syntax_pos_facts(tail(r, 1));
    }
}

proof fn lemma_bracketed_piece(r: Seq<u8>, open: u8, close: u8)
    ensures
        bracketed(r, open, close) matches Some((v, x)) ==> is_suffix(x, r) && (v matches Some(inside)
            ==> 1 + inside.len() <= r.len() && forall|i: int|
            0 <= i < inside.len() ==> #[trigger] inside[i] == r[1 + i]),
{
    if starts(r, open) {
        crate::syntax::lemma_byte_pos_facts(tail(r, 1), close);
    }
}

/// A field list with neither `"` nor `/` never gives `ReservedSyntax`.
proof fn lemma_fields_clean(s: Seq<u8>)
    requires
        !has_reserved(s),
    ensures
        parse_fields(s) != Err::<Seq<FieldModel>, ParseError>(ParseError::ReservedSyntax),
    decreases s.len(),
{
    if s.len() > 0 {
        let (item, rest) = field_step(s);
        if item is Ok {
            lemma_field_step_shrinks(s);
            lemma_syntax_pos_facts(s);
            let (name, r1) = field_name(s)->Some_0;
            assert(is_suffix(r1, s));
            lemma_assigned_suffix(r1);
            let (v, r2) = assigned(r1)->Some_0;
            assert(is_suffix(r2, s));
            assert(is_suffix(rest, s));
            lemma_clean_piece(s, rest, s.len() - rest.len());
            lemma_fields_clean(rest);
        }
    }
}

proof fn lemma_spans_clean(s: Seq<u8>)
    requires
        !has_reserved(s),
    ensures
        parse_spans(s) != Err::<Seq<SpanTree>, ParseError>(ParseError::ReservedSyntax),
    decreases s.len(),
{
    if s.len() > 0 {
        let (item, rest) = span_step(s);
        if item is Ok {
            lemma_span_step_shrinks(s);
            lemma_syntax_pos_facts(s);
            let (name, r1) = span_name(s)->Some_0;
            assert(is_suffix(r1, s));
            lemma_bracketed_piece(r1, 0x7b, 0x7d);
            let (inside, r2) = bracketed(r1, 0x7b, 0x7d)->Some_0;
            if let Some(x) = inside {
                let off = s.len() - r1.len() + 1;
                assert forall|i: int| 0 <= i < x.len() implies #[trigger] x[i] == s[off + i] by {
                    assert(x[i] == r1[1 + i]);
                }
                lemma_clean_piece(s, x, off);
                lemma_fields_clean(x);
            }
            assert(is_suffix(r2, s));
            assert(is_suffix(rest, s));
            lemma_clean_piece(s, rest, s.len() - rest.len());
            lemma_spans_clean(rest);
        }
    }
}

/// A directive string with neither `"` nor `/` never gives `ReservedSyntax`.
pub proof fn lemma_reserved_only_from_reserved_bytes(s: Seq<u8>)
    requires
        !has_reserved(s),
    ensures
        parse_all(s) != Err::<Seq<FilterTree>, ParseError>(ParseError::ReservedSyntax),
    decreases s.len(),
{
    if s.len() > 0 {
        let (item, rest) = filter_step(s);
        if item is Ok {
            lemma_filter_step_shrinks(s);
            lemma_syntax_pos_facts(s);
            let (target, r1) = filter_target(s)->Some_0;
            assert(is_suffix(r1, s));
            lemma_bracketed_piece(r1, 0x5b, 0x5d);
            let (inside, r2) = bracketed(r1, 0x5b, 0x5d)->Some_0;
            if let Some(x) = inside {
                let off = s.len() - r1.len() + 1;
                assert forall|i: int| 0 <= i < x.len() implies #[trigger] x[i] == s[off + i] by {
                    assert(x[i] == r1[1 + i]);
                }
                lemma_clean_piece(s, x, off);
                lemma_spans_clean(x);
            }
            assert(is_suffix(r2, s));
            lemma_assigned_suffix(r2);
            let (l, r3) = filter_level(r2)->Some_0;
            assert(is_suffix(r3, s));
            assert(is_suffix(rest, s));
            lemma_clean_piece(s, rest, s.len() - rest.len());
            lemma_reserved_only_from_reserved_bytes(rest);
        }
    }
}

pub open spec fn field_models(v: Seq<FieldFilter>) -> Seq<FieldModel> {
    v.map_values(|f: FieldFilter| f.model())
}

/// A single span filter, `[span{field=value}]`.
#[derive(Debug, Clone, PartialEq, Eq)]
pub struct SpanFilter<'a> {
    pub name: &'a str,
    pub fields: Option<Vec<FieldFilter<'a>>>,
}

/// A single event filter, `target[span{field=value}]=level`.
#[derive(Debug, Clone, PartialEq, Eq)]
pub struct Filter<'a> {
    pub target: &'a str,
    pub span: Option<Vec<SpanFilter<'a>>>,
    pub level: Option<&'a str>,
}

impl<'a> SpanFilter<'a> {
    pub open spec fn tree(&self) -> SpanTree {
        SpanTree {
            name: self.name.spec_bytes(),
            fields: match self.fields {
                Some(v) => Some(field_models(v@)),
                None => None,
            },
        }
    }

    /// Parses the fields of a pulled span filter.
    pub fn try_from(filter: lazy::SpanFilter<'a>) -> (r: Result<SpanFilter<'a>, ParseError>)
        ensures
            match (parse_opt_fields(filter.model().fields), r) {
                (Ok(fields), Ok(t)) => t.tree() == (SpanTree { name: filter.name.spec_bytes(), fields }),
                (Err(e1), Err(e2)) => e1 == e2,
                _ => false,
            },
    {
        let fields = match filter.fields {
            None => None,
            Some(it) => match collect_fields(it) {
                Ok(v) => Some(v),
                Err(e) => return Err(e),
            },
        };
        Ok(SpanFilter { name: filter.name, fields })
    }
}

pub open spec fn span_trees(v: Seq<SpanFilter>) -> Seq<SpanTree> {
    v.map_values(|f: SpanFilter| f.tree())
}

impl<'a> Filter<'a> {
    pub open spec fn tree(&self) -> FilterTree {
        FilterTree {
            target: self.target.spec_bytes(),
            span: match self.span {
                Some(v) => Some(span_trees(v@)),
                None => None,
            },
            level: opt_bytes(self.level),
        }
    }

    /// Parses the spans of a pulled filter, and their fields.
    pub fn try_from(filter: lazy::Filter<'a>) -> (r: Result<Filter<'a>, ParseError>)
        ensures
            match (parse_opt_spans(filter.model().span), r) {
                (Ok(span), Ok(t)) => t.tree() == (FilterTree {
                    target: filter.target.spec_bytes(),
                    span,
                    level: opt_bytes(filter.level),
                }),
                (Err(e1), Err(e2)) => e1 == e2,
                _ => false,
            },
    {
        let span = match filter.span {
            None => None,
            Some(it) => match collect_spans(it) {
                Ok(v) => Some(v),
                Err(e) => return Err(e),
            },
        };
        Ok(Filter { target: filter.target, span, level: filter.level })
    }
}

pub open spec fn filter_trees(v: Seq<Filter>) -> Seq<FilterTree> {
    v.map_values(|f: Filter| f.tree())
}

pub open spec fn fields_result(r: Result<Vec<FieldFilter>, ParseError>) -> Result<Seq<FieldModel>, ParseError> {
    match r {
        Ok(v) => Ok(field_models(v@)),
        Err(e) => Err(e),
    }
}

pub open spec fn spans_result(r: Result<Vec<SpanFilter>, ParseError>) -> Result<Seq<SpanTree>, ParseError> {
    match r {
        Ok(v) => Ok(span_trees(v@)),
        Err(e) => Err(e),
    }
}

pub open spec fn filters_result(r: Result<Vec<Filter>, ParseError>) -> Result<Seq<FilterTree>, ParseError> {
    match r {
        Ok(v) => Ok(filter_trees(v@)),
        Err(e) => Err(e),
    }
}

fn collect_fields<'a>(items: lazy::FieldFilters<'a>) -> (r: Result<Vec<FieldFilter<'a>>, ParseError>)
    ensures
        fields_result(r) == parse_fields(items@),
{
    let mut it = items;
    let ghost whole = it@;
    let mut v: Vec<FieldFilter<'a>> = Vec::new();
    loop
        invariant
            parse_fields(whole) == prepend(field_models(v@), parse_fields(it@)),
            whole == items@,
        decreases it@.len(),
    {
        let ghost cur = it@;
        proof {
            if cur.len() > 0 {
                lemma_field_step_shrinks(cur);
            }
        }
        match it.next() {
            None => {
                assert(field_models(v@) + seq![] =~= field_models(v@));
                return Ok(v);
            },
            Some(Err(e)) => return Err(e),
            Some(Ok(f)) => {
                let ghost old_v = v@;
                v.push(f);
                assert(field_models(v@) =~= field_models(old_v) + seq![f.model()]);
                assert forall|x: Seq<FieldModel>| field_models(old_v) + (seq![f.model()] + x) =~= field_models(v@) + x by {}
            },
        }
    }
}

fn collect_spans<'a>(items: lazy::SpanFilters<'a>) -> (r: Result<Vec<SpanFilter<'a>>, ParseError>)
    ensures
        spans_result(r) == parse_spans(items@),
{
    let mut it = items;
    let ghost whole = it@;
    let mut v: Vec<SpanFilter<'a>> = Vec::new();
    loop
        invariant
            parse_spans(whole) == prepend(span_trees(v@), parse_spans(it@)),
            whole == items@,
        decreases it@.len(),
    {
        let ghost cur = it@;
        proof {
            if cur.len() > 0 {
                lemma_span_step_shrinks(cur);
            }
        }
        match it.next() {
            None => {
                assert(span_trees(v@) + seq![] =~= span_trees(v@));
                return Ok(v);
            },
            Some(Err(e)) => return Err(e),
            Some(Ok(f)) => {
                match SpanFilter::try_from(f) {
                    Err(e) => return Err(e),
                    Ok(t) => {
                        let ghost old_v = v@;
                        v.push(t);
                        assert(span_trees(v@) =~= span_trees(old_v) + seq![t.tree()]);
                        assert forall|x: Seq<SpanTree>| span_trees(old_v) + (seq![t.tree()] + x) =~= span_trees(v@) + x by {}
                    },
                }
            },
        }
    }
}

/// Parses a series of filters out of a directive string, all at once.
pub fn filters(directives: &str) -> (r: Result<Vec<Filter<'_>>, ParseError>)
    ensures
        filters_result(r) == parse_all(directives.spec_bytes()),
        has_reserved(directives.spec_bytes()) ==> r matches Err(ParseError::ReservedSyntax),
        !has_reserved(directives.spec_bytes()) ==> !(r matches Err(ParseError::ReservedSyntax)),
        !dangling_comma(directives.spec_bytes()) ==> (r matches Ok(v) ==> render_all(
            filter_trees(v@),
        ) == directives.spec_bytes()),
{
    let mut it = lazy::filters(directives);
    let ghost whole = it@;
    proof {
        if parse_all(whole) is Ok && !dangling_comma(whole) {
            lemma_zero_copy(whole);
        }
        if !has_reserved(whole) {
            lemma_reserved_only_from_reserved_bytes(whole);
        }
    }
    let mut v: Vec<Filter> = Vec::new();
    loop
        invariant
            parse_all(whole) == prepend(filter_trees(v@), parse_all(it@)),
            whole == directives.spec_bytes(),
            has_reserved(whole) ==> parse_all(whole) == Err::<Seq<FilterTree>, ParseError>(ParseError::ReservedSyntax),
            !has_reserved(whole) ==> parse_all(whole) != Err::<Seq<FilterTree>, ParseError>(ParseError::ReservedSyntax),
            parse_all(whole) is Ok && !dangling_comma(whole) ==> render_all(parse_all(whole)->Ok_0) == whole,
        decreases it@.len(),
    {
        let ghost cur = it@;
        proof {
            if cur.len() > 0 {
                lemma_filter_step_shrinks(cur);
            }
        }
        match it.next() {
            None => {
                assert(filter_trees(v@) + seq![] =~= filter_trees(v@));
                return Ok(v);
            },
            Some(Err(e)) => return Err(e),
            Some(Ok(f)) => {
                match Filter::try_from(f) {
                    Err(e) => return Err(e),
                    Ok(t) => {
                        let ghost old_v = v@;
                        v.push(t);
                        assert(filter_trees(v@) =~= filter_trees(old_v) + seq![t.tree()]);
                        assert forall|x: Seq<FilterTree>| filter_trees(old_v) + (seq![t.tree()] + x) =~= filter_trees(v@) + x by {}
                    },
                }
            },
        }
    }
}

} // verus!
