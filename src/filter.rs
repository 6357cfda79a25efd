//! Deciding whether an archived event passes a set of directives.
use vstd::prelude::*;
use vstd::string::StringSliceAdditionalSpecFns;
use vstd::utf8::encode_utf8;
use crate::archive::{Level, Field, Leaf, Entry, Span, Event, FieldMap};
use crate::eager;
use crate::eager::{FilterTree, parse_all};
use crate::syntax::ParseError;

verus! {

/// The bytes of a text in UTF-8.
pub open spec fn bytes_of(s: Seq<char>) -> Seq<u8> {
    encode_utf8(s)
}

/// Whether `needle` stands somewhere in `hay`.
pub open spec fn contains(hay: Seq<u8>, needle: Seq<u8>) -> bool {
    exists|i: int| 0 <= i && i + needle.len() <= hay.len() && #[trigger] hay.subrange(i, i + needle.len()) == needle
}

/// Whether `needle` stands in `hay` at position `i`.
fn matches_at(hay: &[u8], needle: &[u8], i: usize) -> (r: bool)
    requires
        i + needle@.len() <= hay@.len(),
    ensures
        r == (hay@.subrange(i as int, i + needle@.len()) == needle@),
{
    let n = hay.len();
    let mut k: usize = 0;
    while k < needle.len()
        invariant
            i + needle@.len() <= hay@.len(),
            k <= needle@.len(),
            n == hay@.len(),
            forall|j: int| 0 <= j < k ==> hay@[i + j] == needle@[j],
        decreases needle@.len() - k,
    {
        let b = hay[i + k];
        if b != needle[k] {
            proof {
                assert(hay@.subrange(i as int, i + needle@.len())[k as int] != needle@[k as int]);
            }
            return false;
        }
        k = k + 1;
    }
    assert(hay@.subrange(i as int, i + needle@.len()) =~= needle@);
    true
}

/// Whether `needle` stands somewhere in `hay`, byte for byte.
pub fn contains_bytes(hay: &[u8], needle: &[u8]) -> (r: bool)
    ensures
        r == contains(hay@, needle@),
{
    if needle.len() > hay.len() {
        return false;
    }
    let limit = hay.len() - needle.len();
    let mut i: usize = 0;
    while i <= limit
        invariant
            needle@.len() <= hay@.len(),
            limit == hay@.len() - needle@.len(),
            i <= limit + 1,
            forall|j: int| 0 <= j < i ==> #[trigger] hay@.subrange(j, j + needle@.len()) != needle@,
        decreases limit + 1 - i,
    {
        if matches_at(hay, needle, i) {
            return true;
        }
        if i == limit {
            return false;
        }
        i = i + 1;
    }
    false
}

/// Decimal digits of `n`.
pub open spec fn digits(n: nat) -> Seq<u8>
    decreases n,
{
    if n < 10 {
        seq![(0x30 + n) as u8]
    } else {
        digits(n / 10).push((0x30 + n % 10) as u8)
    }
}

/// Decimal text of `v`, with a leading `-` when negative.
pub open spec fn int_text(v: int) -> Seq<u8> {
    if v < 0 {
        seq![0x2du8] + digits((-v) as nat)
    } else {
        digits(v as nat)
    }
}

/// The quoted, escaped form of a text, as `{:?}` writes it.
pub uninterp spec fn str_debug(s: Seq<char>) -> Seq<char>;

/// How a recorded value reads when written with `{:?}`: numbers in decimal, booleans as
/// words, strings quoted, errors and captured debug text as they were captured.
pub open spec fn render(l: Leaf) -> Seq<u8> {
    match l {
        Leaf::I64(v) => int_text(v as int),
        Leaf::U64(v) => digits(v as nat),
        Leaf::Bool(b) => if b {
            seq![0x74u8, 0x72, 0x75, 0x65]
        } else {
            seq![0x66u8, 0x61, 0x6c, 0x73, 0x65]
        },
        Leaf::Str(s) => bytes_of(str_debug(s)),
        Leaf::Error(s) => bytes_of(s),
        Leaf::Debug(s) => bytes_of(s),
    }
}

/// Relies on `format!("{:?}", s)` for a `&str`: the quoted form depends on the text alone.
#[verifier::external_body]
fn quoted(s: &str) -> (r: String)
    ensures
        r@ == str_debug(s@),
{
    format!("{:?}", s)
}

fn push_digits(n: u64, out: &mut Vec<u8>)
    ensures
        final(out)@ == old(out)@ + digits(n as nat),
    decreases n,
{
    if n < 10 {
        out.push((0x30 + n) as u8);
    } else {
        push_digits(n / 10, out);
        out.push((0x30 + n % 10) as u8);
    }
}

fn copy_bytes(s: &[u8]) -> (r: Vec<u8>)
    ensures
        r@ == s@,
{
    let mut r: Vec<u8> = Vec::new();
    let mut i: usize = 0;
    while i < s.len()
        invariant
            i <= s@.len(),
            r@ == s@.subrange(0, i as int),
        decreases s@.len() - i,
    {
        r.push(s[i]);
        i = i + 1;
        assert(r@ =~= s@.subrange(0, i as int));
    }
    assert(r@ =~= s@);
    r
}

/// The text of a recorded value as `{:?}` writes it; empty for a `Multiple`.
pub fn render_leaf(f: &Field) -> (r: Vec<u8>)
    ensures
        !f.is_multiple() ==> r@ == render(f.leaf()),
{
    match f {
        Field::I64(v) => {
            let mut out: Vec<u8> = Vec::new();
            let m: u64 = if *v < 0 {
                (-(*v as i128)) as u64
            } else {
                *v as u64
            };
            if *v < 0 {
                out.push(0x2d);
            }
            push_digits(m, &mut out);
            proof {
                if *v < 0 {
                    assert(out@ =~= seq![0x2du8] + digits((-(*v as int)) as nat));
                }
            }
            out
        },
        Field::U64(v) => {
            let mut out: Vec<u8> = Vec::new();
            push_digits(*v, &mut out);
            assert(out@ =~= digits(*v as nat));
            out
        },
        Field::Bool(b) => if *b {
            vec![0x74u8, 0x72, 0x75, 0x65]
        } else {
            vec![0x66u8, 0x61, 0x6c, 0x73, 0x65]
        },
        Field::Str(s) => {
            let q = quoted(s.as_str());
            copy_bytes(q.as_str().as_bytes())
        },
        Field::Error(s) => copy_bytes(s.as_str().as_bytes()),
        Field::Debug(s) => copy_bytes(s.as_str().as_bytes()),
        Field::Multiple(_) => Vec::new(),
    }
}

/// The most verbose level a directive admits; `Off` admits nothing.
#[derive(Debug, Clone, Copy, PartialEq, Eq, Structural)]
pub enum LevelFilter {
    Off,
    Error,
    Warn,
    Info,
    Debug,
    Trace,
}

impl LevelFilter {
    /// Verbosity rank: `Off` is 0, `Error` 1, up to `Trace` 5.
    pub open spec fn rank(self) -> nat {
        match self {
            LevelFilter::Off => 0,
            LevelFilter::Error => 1,
            LevelFilter::Warn => 2,
            LevelFilter::Info => 3,
            LevelFilter::Debug => 4,
            LevelFilter::Trace => 5,
        }
    }

    /// Whether an event of severity `level` passes this filter.
    pub fn admits(self, level: Level) -> (r: bool)
        ensures
            r == (level.rank() <= self.rank()),
    {
        let k: u8 = match self {
            LevelFilter::Off => 0,
            LevelFilter::Error => 1,
            LevelFilter::Warn => 2,
            LevelFilter::Info => 3,
            LevelFilter::Debug => 4,
            LevelFilter::Trace => 5,
        };
        level.verbosity() <= k
    }
}

/// A field clause: a field whose name holds `name`, and whose value, written with `{:?}`,
/// holds `value` when that is given.
pub struct FieldDirective {
    pub name: String,
    pub value: Option<String>,
}

/// One directive: within the scope its present clauses give, admit up to `level`.
pub struct Directive {
    pub target: Option<String>,
    pub span: Option<String>,
    pub field: Option<FieldDirective>,
    pub level: LevelFilter,
}

/// A list of directives, each overriding those before it where it applies.
pub struct EventFilter {
    pub directives: Vec<Directive>,
}

/// Whether one of the values, written with `{:?}`, holds `value`; true when no value is asked for.
pub open spec fn value_matches(leaves: Seq<Leaf>, value: Option<String>) -> bool {
    value is None || exists|j: int|
        0 <= j < leaves.len() && #[trigger] contains(render(leaves[j]), bytes_of(value->Some_0@))
}

proof fn lemma_value_found(leaves: Seq<Leaf>, w: String, j: int)
    requires
        0 <= j < leaves.len(),
        contains(render(leaves[j]), bytes_of(w@)),
    ensures
        value_matches(leaves, Some(w)),
{
    let v = Some(w);
    assert(contains(render(leaves[j]), bytes_of(v->Some_0@)));
}

/// Whether a field entry meets a field clause.
pub open spec fn entry_matches(e: Entry, fd: FieldDirective) -> bool {
    contains(bytes_of(e.0), bytes_of(fd.name@)) && value_matches(e.1, fd.value)
}

/// Whether some entry of a field map meets a field clause.
pub open spec fn map_matches(m: Seq<Entry>, fd: FieldDirective) -> bool {
    exists|i: int| 0 <= i < m.len() && #[trigger] entry_matches(m[i], fd)
}

/// Whether some span of `c` has a name that holds `n`.
pub open spec fn chain_names(c: Seq<Span>, n: Seq<u8>) -> bool {
    exists|k: int| 0 <= k < c.len() && #[trigger] contains(bytes_of(c[k].spec_meta().name@), n)
}

/// Whether some span of `c` has a field that meets a field clause.
pub open spec fn chain_fields(c: Seq<Span>, fd: FieldDirective) -> bool {
    exists|k: int| 0 <= k < c.len() && #[trigger] map_matches(c[k].spec_fields(), fd)
}

/// Whether every clause present in `d` holds of `e`.
pub open spec fn applies(d: Directive, e: Event) -> bool {
    &&& d.target matches Some(t) ==> contains(bytes_of(e.spec_meta().target@), bytes_of(t@))
    &&& d.span matches Some(n) ==> chain_names(e.chain(), bytes_of(n@))
    &&& d.field matches Some(fd) ==> map_matches(e.spec_fields(), fd) || chain_fields(e.chain(), fd)
}

/// The decision of the last directive of `ds` that applies to `e`; rejection when none does.
pub open spec fn decide(ds: Seq<Directive>, e: Event) -> bool
    decreases ds.len(),
{
    if ds.len() == 0 {
        false
    } else if applies(ds.last(), e) {
        e.spec_meta().level.rank() <= ds.last().level.rank()
    } else {
        decide(ds.drop_last(), e)
    }
}

/// Whether a directive list admits `e`: an empty list admits everything.
pub open spec fn admits(ds: Seq<Directive>, e: Event) -> bool {
    ds.len() == 0 || decide(ds, e)
}

fn text_bytes(s: &String) -> (r: &[u8])
    ensures
        r@ == bytes_of(s@),
{
    s.as_str().as_bytes()
}

/// Whether a field named `name` with value `f` meets a field clause.
fn field_matches(name: &String, f: &Field, fd: &FieldDirective) -> (r: bool)
    requires
        f.wf(),
    ensures
        r == entry_matches((name@, f.leaves()), *fd),
{
    if !contains_bytes(text_bytes(name), text_bytes(&fd.name)) {
        return false;
    }
    match &fd.value {
        None => true,
        Some(v) => {
            let texts = f.with_debug(render_leaf);
            let needle = text_bytes(v);
            let mut j: usize = 0;
            while j < texts.len()
                invariant
                    f.wf(),
                    j <= texts@.len(),
                    texts@.len() == f.parts().len(),
                    f.leaves() == f.parts().map_values(|c: Field| c.leaf()),
                    needle@ == bytes_of(v@),
                    fd.value == Some(*v),
                    contains(bytes_of(name@), bytes_of(fd.name@)),
                    forall|i: int| 0 <= i < texts@.len() ==> (#[trigger] texts@[i])@ == render(f.leaves()[i]),
                    forall|i: int| 0 <= i < j ==> !#[trigger] contains(render(f.leaves()[i]), needle@),
                decreases texts@.len() - j,
            {
                if contains_bytes(texts[j].as_slice(), needle) {
                    let ghost e: Entry = (name@, f.leaves());
                    let ghost w: String = *v;
                    proof { lemma_value_found(e.1, w, j as int); }
                    return true;
                }
                j = j + 1;
            }
            false
        },
    }
}

/// Whether some field of a map meets a field clause.
fn map_has(fields: &FieldMap, fd: &FieldDirective) -> (r: bool)
    requires
        fields.wf(),
    ensures
        r == map_matches(fields.view(), *fd),
{
    let n = fields.len();
    let mut i: usize = 0;
    while i < n
        invariant
            fields.wf(),
            n == fields.view().len(),
            i <= n,
            forall|k: int| 0 <= k < i ==> !#[trigger] entry_matches(fields.view()[k], *fd),
        decreases n - i,
    {
        match fields.get_index(i) {
            Some((name, f)) => {
                if field_matches(name, f, fd) {
                    assert(entry_matches(fields.view()[i as int], *fd));
                    return true;
                }
            },
            None => {},
        }
        i = i + 1;
    }
    false
}

/// Whether `s` or a span enclosing it has a name that holds `n`.
fn chain_has_name(s: &Span, n: &[u8]) -> (r: bool)
    requires
        s.wf(),
    ensures
        r == chain_names(s.chain(), n@),
    decreases s.depth(),
{
    proof { crate::archive::lemma_chain_shape(*s); }
    if contains_bytes(text_bytes(&s.meta().name), n) {
        assert(contains(bytes_of(s.chain()[0].spec_meta().name@), n@));
        return true;
    }
    match s.parent() {
        None => false,
        Some(p) => {
            let r = chain_has_name(p, n);
            proof {
                let c = s.chain();
                if r {
                    let k = choose|k: int| 0 <= k < p.chain().len() && #[trigger] contains(bytes_of(p.chain()[k].spec_meta().name@), n@);
                    assert(c[k + 1] == p.chain()[k]);
                }
                if chain_names(c, n@) {
                    let k = choose|k: int| 0 <= k < c.len() && #[trigger] contains(bytes_of(c[k].spec_meta().name@), n@);
                    assert(k > 0);
                    assert(c[k] == p.chain()[k - 1]);
                }
            }
            r
        },
    }
}

/// Whether `s` or a span enclosing it has a field that meets a field clause.
fn chain_has_field(s: &Span, fd: &FieldDirective) -> (r: bool)
    requires
        s.wf(),
    ensures
        r == chain_fields(s.chain(), *fd),
    decreases s.depth(),
{
    proof { crate::archive::lemma_chain_shape(*s); }
    if map_has(s.fields(), fd) {
        assert(map_matches(s.chain()[0].spec_fields(), *fd));
        return true;
    }
    match s.parent() {
        None => false,
        Some(p) => {
            let r = chain_has_field(p, fd);
            proof {
                let c = s.chain();
                if r {
                    let k = choose|k: int| 0 <= k < p.chain().len() && #[trigger] map_matches(p.chain()[k].spec_fields(), *fd);
                    assert(c[k + 1] == p.chain()[k]);
                }
                if chain_fields(c, *fd) {
                    let k = choose|k: int| 0 <= k < c.len() && #[trigger] map_matches(c[k].spec_fields(), *fd);
                    assert(k > 0);
                    assert(c[k] == p.chain()[k - 1]);
                }
            }
            r
        },
    }
}

impl Directive {
    /// Whether every clause present in this directive holds of `event`.
    pub fn applies_to(&self, event: &Event) -> (r: bool)
        requires
            event.wf(),
        ensures
            r == applies(*self, *event),
    {
        if let Some(t) = &self.target {
            if !contains_bytes(text_bytes(&event.meta().target), text_bytes(t)) {
                return false;
            }
        }
        if let Some(n) = &self.span {
            let found = match event.span() {
                Some(s) => chain_has_name(s, text_bytes(n)),
                None => false,
            };
            if !found {
                return false;
            }
        }
        if let Some(fd) = &self.field {
            let found = map_has(event.fields(), fd) || match event.span() {
                Some(s) => chain_has_field(s, fd),
                None => false,
            };
            if !found {
                return false;
            }
        }
        true
    }
}

impl EventFilter {
    /// Whether `event` passes: with no directives, always; else by the last directive that
    /// applies to it, and not when none does.
    pub fn includes(&self, event: &Event) -> (r: bool)
        requires
            event.wf(),
        ensures
            r == admits(self.directives@, *event),
    {
        if self.directives.len() == 0 {
            return true;
        }
        let mut included = false;
        let mut i: usize = 0;
        while i < self.directives.len()
            invariant
                event.wf(),
                i <= self.directives@.len(),
                included == decide(self.directives@.subrange(0, i as int), *event),
            decreases self.directives@.len() - i,
        {
            let d = &self.directives[i];
            let ghost pre = self.directives@.subrange(0, i as int);
            let ghost next = self.directives@.subrange(0, i + 1);
            assert(next.drop_last() =~= pre);
            assert(next.last() == *d);
            if d.applies_to(event) {
                included = d.level.admits(event.meta().level);
            }
            i = i + 1;
        }
        assert(self.directives@.subrange(0, i as int) =~= self.directives@);
        included
    }

    /// Whether `event` is held back: the opposite of `includes`.
    pub fn excludes(&self, event: &Event) -> (r: bool)
        requires
            event.wf(),
        ensures
            r == !admits(self.directives@, *event),
    {
        !self.includes(event)
    }
}

impl Directive {
    /// A directive; with no level given it admits every severity in its scope.
    pub fn new(
        target: Option<String>,
        span: Option<String>,
        field: Option<FieldDirective>,
        level: Option<LevelFilter>,
    ) -> (r: Directive)
        ensures
            r.target == target,
            r.span == span,
            r.field == field,
            r.level == match level {
                Some(l) => l,
                None => LevelFilter::Trace,
            },
    {
        let level = match level {
            Some(l) => l,
            None => LevelFilter::Trace,
        };
        Directive { target, span, field, level }
    }
}

/// With no directives, every event is admitted.
pub proof fn lemma_empty_admits_all(e: Event)
    ensures
        admits(Seq::<Directive>::empty(), e),
{
}

/// A lone directive `target=level` admits an event exactly when the event's target holds the
/// directive's target and its severity is within the level.
pub proof fn lemma_target_level(d: Directive, e: Event)
    requires
        d.target is Some,
        d.span is None,
        d.field is None,
    ensures
        admits(seq![d], e) == (contains(bytes_of(e.spec_meta().target@), bytes_of(d.target->Some_0@))
            && e.spec_meta().level.rank() <= d.level.rank()),
{
    let ds = seq![d];
    assert(ds.drop_last() =~= Seq::<Directive>::empty());
    assert(ds.last() == d);
    assert(decide(ds.drop_last(), e) == false);
}

/// A directive that applies overrides every directive before it; one that does not leaves
/// the decision of those before it.
pub proof fn lemma_last_applying_wins(ds: Seq<Directive>, d: Directive, e: Event)
    ensures
        applies(d, e) ==> admits(ds.push(d), e) == (e.spec_meta().level.rank() <= d.level.rank()),
        !applies(d, e) && ds.len() > 0 ==> admits(ds.push(d), e) == admits(ds, e),
{
    assert(ds.push(d).drop_last() =~= ds);
}

/// A lone directive at level `Trace` admits every event in its scope, whatever its severity.
pub proof fn lemma_trace_admits_scope(d: Directive, e: Event)
    requires
        d.level == LevelFilter::Trace,
    ensures
        admits(seq![d], e) == applies(d, e),
{
    let ds = seq![d];
    assert(ds.drop_last() =~= Seq::<Directive>::empty());
    assert(ds.last() == d);
    assert(decide(ds.drop_last(), e) == false);
}

/// `b` with ASCII upper case letters made lower case.
pub open spec fn lower(b: u8) -> u8 {
    if 0x41 <= b <= 0x5a {
        (b + 0x20) as u8
    } else {
        b
    }
}

/// Whether `s` reads `word` (given in lower case), ignoring ASCII case.
pub open spec fn is_word(s: Seq<u8>, word: Seq<u8>) -> bool {
    s.len() == word.len() && forall|i: int| 0 <= i < s.len() ==> lower(#[trigger] s[i]) == word[i]
}

/// The level a token names: `off`, `error`, `warn`, `info`, `debug` or `trace` in any ASCII
/// case, or a digit from `0` (off) to `5` (trace).
pub open spec fn level_of(s: Seq<u8>) -> Option<LevelFilter> {
    if is_word(s, seq![0x6fu8, 0x66, 0x66]) || s == seq![0x30u8] {
        Some(LevelFilter::Off)
    } else if is_word(s, seq![0x65u8, 0x72, 0x72, 0x6f, 0x72]) || s == seq![0x31u8] {
        Some(LevelFilter::Error)
    } else if is_word(s, seq![0x77u8, 0x61, 0x72, 0x6e]) || s == seq![0x32u8] {
        Some(LevelFilter::Warn)
    } else if is_word(s, seq![0x69u8, 0x6e, 0x66, 0x6f]) || s == seq![0x33u8] {
        Some(LevelFilter::Info)
    } else if is_word(s, seq![0x64u8, 0x65, 0x62, 0x75, 0x67]) || s == seq![0x34u8] {
        Some(LevelFilter::Debug)
    } else if is_word(s, seq![0x74u8, 0x72, 0x61, 0x63, 0x65]) || s == seq![0x35u8] {
        Some(LevelFilter::Trace)
    } else {
        None
    }
}

fn word_eq(s: &[u8], word: &[u8]) -> (r: bool)
    ensures
        r == is_word(s@, word@),
{
    if s.len() != word.len() {
        return false;
    }
    let mut i: usize = 0;
    while i < s.len()
        invariant
            s@.len() == word@.len(),
            i <= s@.len(),
            forall|k: int| 0 <= k < i ==> lower(#[trigger] s@[k]) == word@[k],
        decreases s@.len() - i,
    {
        let b = s[i];
        let l: u8 = if 0x41 <= b && b <= 0x5a {
            b + 0x20
        } else {
            b
        };
        if l != word[i] {
            return false;
        }
        i = i + 1;
    }
    true
}

fn is_digit_token(s: &[u8], d: u8) -> (r: bool)
    ensures
        r == (s@ == seq![d]),
{
    let r = s.len() == 1 && s[0] == d;
    proof {
        if s@.len() == 1 && s@[0] == d {
            assert(s@ =~= seq![d]);
        }
    }
    r
}

impl LevelFilter {
    /// The level a token names, if it names one.
    pub fn parse(token: &str) -> (r: Option<LevelFilter>)
        ensures
            r == level_of(token.spec_bytes()),
    {
        let s = token.as_bytes();
        let off = vec![0x6fu8, 0x66, 0x66];
        let error = vec![0x65u8, 0x72, 0x72, 0x6f, 0x72];
        let warn = vec![0x77u8, 0x61, 0x72, 0x6e];
        let info = vec![0x69u8, 0x6e, 0x66, 0x6f];
        let debug = vec![0x64u8, 0x65, 0x62, 0x75, 0x67];
        let trace = vec![0x74u8, 0x72, 0x61, 0x63, 0x65];
        proof {
            assert(off@ =~= seq![0x6fu8, 0x66, 0x66]);
            assert(error@ =~= seq![0x65u8, 0x72, 0x72, 0x6f, 0x72]);
            assert(warn@ =~= seq![0x77u8, 0x61, 0x72, 0x6e]);
            assert(info@ =~= seq![0x69u8, 0x6e, 0x66, 0x6f]);
            assert(debug@ =~= seq![0x64u8, 0x65, 0x62, 0x75, 0x67]);
            assert(trace@ =~= seq![0x74u8, 0x72, 0x61, 0x63, 0x65]);
        }
        if word_eq(s, off.as_slice()) || is_digit_token(s, 0x30) {
            Some(LevelFilter::Off)
        } else if word_eq(s, error.as_slice()) || is_digit_token(s, 0x31) {
            Some(LevelFilter::Error)
        } else if word_eq(s, warn.as_slice()) || is_digit_token(s, 0x32) {
            Some(LevelFilter::Warn)
        } else if word_eq(s, info.as_slice()) || is_digit_token(s, 0x33) {
            Some(LevelFilter::Info)
        } else if word_eq(s, debug.as_slice()) || is_digit_token(s, 0x34) {
            Some(LevelFilter::Debug)
        } else if word_eq(s, trace.as_slice()) || is_digit_token(s, 0x35) {
            Some(LevelFilter::Trace)
        } else {
            None
        }
    }
}

/// The level of a parsed filter: `Trace` when it names none, or when nothing follows its `=`.
pub open spec fn tree_level(t: FilterTree) -> Option<LevelFilter> {
    match t.level {
        None => Some(LevelFilter::Trace),
        Some(l) => if l.len() == 0 {
            Some(LevelFilter::Trace)
        } else {
            level_of(l)
        },
    }
}

/// Whether a text names a severity an event can have: a level word other than `off`, or a
/// digit from `1` to `5`.
pub open spec fn names_severity(text: Seq<u8>) -> bool {
    match level_of(text) {
        Some(l) => l != LevelFilter::Off,
        None => false,
    }
}

/// The target of a parsed filter as a clause: absent when empty or when it names a severity.
pub open spec fn target_fits(c: Option<String>, text: Seq<u8>) -> bool {
    if text.len() == 0 || names_severity(text) {
        c is None
    } else {
        c matches Some(x) && bytes_of(x@) == text
    }
}

/// A text as an optional clause: absent when empty.
pub open spec fn clause_fits(c: Option<String>, text: Seq<u8>) -> bool {
    match c {
        None => text.len() == 0,
        Some(x) => text.len() > 0 && bytes_of(x@) == text,
    }
}

/// Whether `d` is the directive a parsed filter stands for: its target unless that names a
/// severity, the name of its first span, the first field of that span, and its level.
pub open spec fn directive_fits(d: Directive, t: FilterTree) -> bool {
    &&& target_fits(d.target, t.target)
    &&& match t.span {
        Some(ss) if ss.len() > 0 => {
            &&& clause_fits(d.span, ss[0].name)
            &&& match ss[0].fields {
                Some(fs) if fs.len() > 0 => match d.field {
                    Some(fd) => bytes_of(fd.name@) == fs[0].name && match (fd.value, fs[0].value) {
                        (Some(v), Some(w)) => bytes_of(v@) == w,
                        (None, None) => true,
                        _ => false,
                    },
                    None => false,
                },
                _ => d.field is None,
            }
        },
        _ => d.span is None && d.field is None,
    }
    &&& tree_level(t) == Some(d.level)
}

fn owned(s: &str) -> (r: String)
    ensures
        bytes_of(r@) == s.spec_bytes(),
{
    s.to_owned()
}

fn optional_clause(s: &str) -> (r: Option<String>)
    ensures
        clause_fits(r, s.spec_bytes()),
{
    if s.as_bytes().len() == 0 {
        None
    } else {
        Some(owned(s))
    }
}

fn target_clause(s: &str) -> (r: Option<String>)
    ensures
        target_fits(r, s.spec_bytes()),
{
    if s.as_bytes().len() == 0 {
        return None;
    }
    match LevelFilter::parse(s) {
        Some(LevelFilter::Off) | None => Some(owned(s)),
        Some(_) => None,
    }
}

impl Directive {
    /// The directive a parsed filter stands for; `None` when its level names no level.
    pub fn from_filter(f: &eager::Filter) -> (r: Option<Directive>)
        ensures
            match r {
                Some(d) => directive_fits(d, f.tree()),
                None => tree_level(f.tree()) is None,
            },
    {
        let level = match f.level {
            None => LevelFilter::Trace,
            Some(l) => if l.as_bytes().len() == 0 {
                LevelFilter::Trace
            } else {
                match LevelFilter::parse(l) {
                    Some(x) => x,
                    None => return None,
                }
            },
        };
        let target = target_clause(f.target);
        let (span, field) = match &f.span {
            Some(ss) if ss.len() > 0 => {
                let first = &ss[0];
                let field = match &first.fields {
                    Some(fs) if fs.len() > 0 => {
                        let fd = &fs[0];
                        let value = match fd.value {
                            Some(v) => Some(owned(v)),
                            None => None,
                        };
                        Some(FieldDirective { name: owned(fd.name), value })
                    },
                    _ => None,
                };
                (optional_clause(first.name), field)
            },
            _ => (None, None),
        };
        Some(Directive { target, span, field, level })
    }
}

/// Whether each directive of `ds` stands for the filter of `ts` at the same place.
pub open spec fn directives_fit(ds: Seq<Directive>, ts: Seq<FilterTree>) -> bool {
    ds.len() == ts.len() && forall|i: int| 0 <= i < ds.len() ==> directive_fits(#[trigger] ds[i], ts[i])
}

impl EventFilter {
    /// The directives a directive string gives; `BadSyntax` also when a level names no level.
    pub fn parse(text: &str) -> (r: Result<EventFilter, ParseError>)
        ensures
            r is Ok ==> parse_all(text.spec_bytes()) is Ok && directives_fit(
                r->Ok_0.directives@,
                parse_all(text.spec_bytes())->Ok_0,
            ),
            parse_all(text.spec_bytes()) is Err ==> r is Err && r->Err_0 == parse_all(
                text.spec_bytes(),
            )->Err_0,
            parse_all(text.spec_bytes()) is Ok && r is Err ==> r->Err_0 == ParseError::BadSyntax
                && exists|i: int|
                0 <= i < parse_all(text.spec_bytes())->Ok_0.len() && #[trigger] tree_level(
                    parse_all(text.spec_bytes())->Ok_0[i],
                ) is None,
    {
        let parsed = match eager::filters(text) {
            Ok(v) => v,
            Err(e) => return Err(e),
        };
        let ghost ts = eager::filter_trees(parsed@);
        let mut directives: Vec<Directive> = Vec::new();
        let mut i: usize = 0;
        while i < parsed.len()
            invariant
                i <= parsed@.len(),
                ts == eager::filter_trees(parsed@),
                parse_all(text.spec_bytes()) == Ok::<Seq<FilterTree>, ParseError>(ts),
                directives_fit(directives@, ts.subrange(0, i as int)),
            decreases parsed@.len() - i,
        {
            match Directive::from_filter(&parsed[i]) {
                None => {
                    assert(ts.len() == parsed@.len());
                    assert(ts[i as int] == parsed@[i as int].tree());
                    assert(parse_all(text.spec_bytes())->Ok_0 == ts);
                    assert(tree_level(parse_all(text.spec_bytes())->Ok_0[i as int]) is None);
                    return Err(ParseError::BadSyntax);
                },
                Some(d) => {
                    let ghost pre = directives@;
                    directives.push(d);
                    proof {
                        assert(ts[i as int] == parsed@[i as int].tree());
                        let sub = ts.subrange(0, i + 1);
                        assert forall|k: int| 0 <= k < directives@.len() implies directive_fits(
                            #[trigger] directives@[k],
                            sub[k],
                        ) by {
                            if k < i {
                                assert(directives@[k] == pre[k]);
                                assert(sub[k] == ts.subrange(0, i as int)[k]);
                            }
                        }
                    }
                },
            }
            i = i + 1;
        }
        assert(ts.subrange(0, i as int) =~= ts);
        Ok(EventFilter { directives })
    }
}

/// A directive string of one filter that names no level, or nothing after its `=`, gives a
/// directive at `Trace`, which admits every event in its scope whatever its severity.
pub proof fn lemma_parsed_without_level(ds: Seq<Directive>, ts: Seq<FilterTree>, e: Event)
    requires
        directives_fit(ds, ts),
        ts.len() == 1,
        ts[0].level matches Some(l) ==> l.len() == 0,
    ensures
        ds.len() == 1,
        ds[0].level == LevelFilter::Trace,
        admits(ds, e) == applies(ds[0], e),
{
    assert(directive_fits(ds[0], ts[0]));
    assert(ds =~= seq![ds[0]]);
    lemma_trace_admits_scope(ds[0], e);
}

} // verus!
