//! Records of events and spans, and the values of their fields.
use vstd::prelude::*;
use vstd::string::StringSliceAdditionalSpecFns;
use std::sync::Arc;
use indexmap::IndexMap;

verus! {

/// Severity of an event or span, from the most severe to the most verbose.
#[derive(Debug, Clone, Copy, PartialEq, Eq, Structural)]
pub enum Level {
    Error,
    Warn,
    Info,
    Debug,
    Trace,
}

impl Level {
    /// Verbosity rank: `Error` is 1, `Trace` is 5.
    pub open spec fn rank(self) -> nat {
        match self {
            Level::Error => 1,
            Level::Warn => 2,
            Level::Info => 3,
            Level::Debug => 4,
            Level::Trace => 5,
        }
    }

    pub fn verbosity(self) -> (r: u8)
        ensures
            r == self.rank(),
    {
        match self {
            Level::Error => 1,
            Level::Warn => 2,
            Level::Info => 3,
            Level::Debug => 4,
            Level::Trace => 5,
        }
    }
}

/// The static description of the place that emitted an event or opened a span.
#[derive(Debug)]
pub struct Meta {
    pub target: String,
    pub name: String,
    pub level: Level,
}

impl Meta {
    /// An equal description.
    pub fn duplicate(&self) -> (r: Meta)
        ensures
            r.target@ == self.target@,
            r.name@ == self.name@,
            r.level == self.level,
    {
        Meta { target: self.target.clone(), name: self.name.clone(), level: self.level }
    }
}

/// A field recorded on some event or span.
#[derive(Debug, PartialEq, Eq)]
pub enum Field {
    I64(i64),
    U64(u64),
    Bool(bool),
    Str(String),
    Error(String),
    Debug(String),
    Multiple(Vec<Field>),
}

/// One recorded value, as a plain value.
pub enum Leaf {
    I64(i64),
    U64(u64),
    Bool(bool),
    Str(Seq<char>),
    Error(Seq<char>),
    Debug(Seq<char>),
}

impl Field {
    pub open spec fn is_multiple(&self) -> bool {
        self is Multiple
    }

    /// The plain value of a field that is not `Multiple`.
    pub open spec fn leaf(&self) -> Leaf {
        match self {
            Field::I64(v) => Leaf::I64(*v),
            Field::U64(v) => Leaf::U64(*v),
            Field::Bool(v) => Leaf::Bool(*v),
            Field::Str(s) => Leaf::Str(s@),
            Field::Error(s) => Leaf::Error(s@),
            Field::Debug(s) => Leaf::Debug(s@),
            Field::Multiple(_) => Leaf::Bool(false),
        }
    }

    /// The fields that hold the values recorded, in order: this one, or each of a `Multiple`.
    pub open spec fn parts(&self) -> Seq<Field> {
        match self {
            Field::Multiple(v) => v@,
            _ => seq![*self],
        }
    }

    /// The values recorded, in order.
    pub open spec fn leaves(&self) -> Seq<Leaf> {
        self.parts().map_values(|c: Field| c.leaf())
    }

    /// A `Multiple` is not empty and holds no `Multiple`.
    pub open spec fn wf(&self) -> bool {
        match self {
            Field::Multiple(v) => v@.len() > 0 && forall|i: int|
                0 <= i < v@.len() ==> !(#[trigger] v@[i]).is_multiple(),
            _ => true,
        }
    }

    fn duplicate_leaf(&self) -> (r: Field)
        requires
            !self.is_multiple(),
        ensures
            !r.is_multiple(),
            r.leaf() == self.leaf(),
    {
        match self {
            Field::I64(v) => Field::I64(*v),
            Field::U64(v) => Field::U64(*v),
            Field::Bool(v) => Field::Bool(*v),
            Field::Str(s) => Field::Str(s.clone()),
            Field::Error(s) => Field::Error(s.clone()),
            Field::Debug(s) => Field::Debug(s.clone()),
            Field::Multiple(_) => Field::Bool(false),
        }
    }

    /// A field with the same values.
    pub fn duplicate(&self) -> (r: Field)
        requires
            self.wf(),
        ensures
            r.wf(),
            r.is_multiple() == self.is_multiple(),
            r.leaves() == self.leaves(),
    {
        match self {
            Field::Multiple(v) => {
                let mut out: Vec<Field> = Vec::new();
                let mut i: usize = 0;
                while i < v.len()
                    invariant
                        self.wf(),
                        *self == Field::Multiple(*v),
                        i <= v@.len(),
                        out@.len() == i,
                        forall|k: int| 0 <= k < i ==> !(#[trigger] out@[k]).is_multiple(),
                        forall|k: int| 0 <= k < i ==> (#[trigger] out@[k]).leaf() == v@[k].leaf(),
                    decreases v@.len() - i,
                {
                    out.push(v[i].duplicate_leaf());
                    i = i + 1;
                }
                let r = Field::Multiple(out);
                assert(r.leaves() =~= self.leaves());
                r
            },
            _ => {
                let r = self.duplicate_leaf();
                assert(r.leaves() =~= self.leaves());
                r
            },
        }
    }

    /// The field after `value` is recorded again under the same name.
    pub fn recorded(self, value: Field) -> (r: Field)
        requires
            self.wf(),
            !value.is_multiple(),
        ensures
            r.wf(),
            r.is_multiple(),
            r.leaves() == self.leaves().push(value.leaf()),
    {
        match self {
            Field::Multiple(v) => {
                let mut v = v;
                let ghost old_v = v@;
                v.push(value);
                proof {
                    assert(v@.map_values(|c: Field| c.leaf()) =~= old_v.map_values(
                        |c: Field| c.leaf(),
                    ).push(value.leaf()));
                }
                Field::Multiple(v)
            },
            other => {
                let v = vec![other, value];
                proof {
                    assert(v@.map_values(|c: Field| c.leaf()) =~= seq![other.leaf(), value.leaf()]);
                }
                Field::Multiple(v)
            },
        }
    }

    /// Calls `record_debug` on each recorded value in order, once each, and collects the results.
    pub fn with_debug<R, F: Fn(&Field) -> R>(&self, record_debug: F) -> (r: Vec<R>)
        requires
            self.wf(),
            forall|x: &Field| #[trigger] record_debug.requires((x,)),
        ensures
            r@.len() == self.parts().len(),
            forall|i: int|
                0 <= i < r@.len() ==> !self.parts()[i].is_multiple() && record_debug.ensures(
                    (&self.parts()[i],),
                    #[trigger] r@[i],
                ),
    {
        let mut out: Vec<R> = Vec::new();
        match self {
            Field::Multiple(v) => {
                let mut i: usize = 0;
                while i < v.len()
                    invariant
                        self.wf(),
                        *self == Field::Multiple(*v),
                        i <= v@.len(),
                        out@.len() == i,
                        forall|x: &Field| #[trigger] record_debug.requires((x,)),
                        forall|k: int|
                            0 <= k < i ==> !self.parts()[k].is_multiple() && record_debug.ensures(
                                (&self.parts()[k],),
                                #[trigger] out@[k],
                            ),
                    decreases v@.len() - i,
                {
                    let x = &v[i];
                    let y = record_debug(x);
                    out.push(y);
                    i = i + 1;
                }
            },
            _ => {
                let y = record_debug(self);
                out.push(y);
            },
        }
        out
    }
}

/// An entry of a field map as plain values: the name and the values recorded under it.
pub type Entry = (Seq<char>, Seq<Leaf>);

/// Whether some entry of `m` has the name `n`.
pub open spec fn has_name(m: Seq<Entry>, n: Seq<char>) -> bool {
    exists|i: int| 0 <= i < m.len() && (#[trigger] m[i]).0 == n
}

/// The recording rule: a new name is appended with its value; a known one gains the value
/// at the end of its values.
pub open spec fn record_entry(m: Seq<Entry>, n: Seq<char>, v: Leaf) -> Seq<Entry> {
    if has_name(m, n) {
        let i = choose|i: int| 0 <= i < m.len() && (#[trigger] m[i]).0 == n;
        m.update(i, (n, m[i].1.push(v)))
    } else {
        m.push((n, seq![v]))
    }
}

/// The values of `vs` recorded under `n`, one after the other.
pub open spec fn record_all(m: Seq<Entry>, n: Seq<char>, vs: Seq<Leaf>) -> Seq<Entry>
    decreases vs.len(),
{
    if vs.len() == 0 {
        m
    } else {
        record_entry(record_all(m, n, vs.drop_last()), n, vs.last())
    }
}

/// Recording one name over and over leaves one entry for it, with every value in the order
/// recorded, after the entries there were before.
pub proof fn lemma_repeated_record(m: Seq<Entry>, n: Seq<char>, vs: Seq<Leaf>)
    requires
        !has_name(m, n),
        vs.len() > 0,
    ensures
        record_all(m, n, vs) == m.push((n, vs)),
    decreases vs.len(),
{
    if vs.len() == 1 {
        assert(vs.drop_last() =~= Seq::<Leaf>::empty());
        assert(record_all(m, n, vs.drop_last()) == m);
        assert(seq![vs.last()] =~= vs);
    } else {
        let pre = vs.drop_last();
        lemma_repeated_record(m, n, pre);
        assert(record_all(m, n, vs) == record_entry(record_all(m, n, pre), n, vs.last()));
        let m1 = m.push((n, pre));
        assert(m1[m.len() as int].0 == n);
        let i = choose|i: int| 0 <= i < m1.len() && (#[trigger] m1[i]).0 == n;
        if i < m.len() {
            assert(m[i] == m1[i]);
            assert(false);
        }
        assert(pre.push(vs.last()) =~= vs);
        assert(m1.update(i, (n, m1[i].1.push(vs.last()))) =~= m.push((n, vs)));
    }
}

/// The map that holds the fields of an event or span.
pub type Fields = IndexMap<String, Field, ahash::RandomState>;

#[verifier::external_type_specification]
#[verifier::external_body]
#[verifier::reject_recursive_types(K)]
#[verifier::reject_recursive_types(V)]
#[verifier::reject_recursive_types(S)]
pub struct ExIndexMap<K, V, S>(IndexMap<K, V, S>);

#[verifier::external_type_specification]
#[verifier::external_body]
pub struct ExRandomState(ahash::RandomState);

/// What an index map of fields holds, in insertion order: each name and its value.
pub uninterp spec fn entries_of(m: Fields) -> Seq<(Seq<char>, Field)>;

/// Names are unique among the entries.
pub open spec fn unique_names(e: Seq<(Seq<char>, Field)>) -> bool {
    forall|i: int, j: int| 0 <= i < j < e.len() ==> (#[trigger] e[i]).0 != (#[trigger] e[j]).0
}

/// Relies on `IndexMap::with_hasher` with `ahash::RandomState::new`: the map starts empty.
#[verifier::external_body]
fn fields_new() -> (r: Fields)
    ensures
        entries_of(r) == Seq::<(Seq<char>, Field)>::empty(),
{
    IndexMap::with_hasher(ahash::RandomState::new())
}

/// Relies on `IndexMap::len`: the number of entries.
#[verifier::external_body]
fn fields_len(m: &Fields) -> (r: usize)
    ensures
        r == entries_of(*m).len(),
{
    m.len()
}

/// Relies on `IndexMap::get_index`: the entry at a position of the insertion order.
#[verifier::external_body]
fn fields_get_index(m: &Fields, i: usize) -> (r: Option<(&String, &Field)>)
    ensures
        r is Some <==> i < entries_of(*m).len(),
        r is Some ==> r->Some_0.0@ == entries_of(*m)[i as int].0 && *r->Some_0.1 == entries_of(
            *m,
        )[i as int].1,
{
    m.get_index(i)
}

/// Relies on `IndexMap::get_index_of`: the position of the entry with a name, if any.
#[verifier::external_body]
fn fields_index_of(m: &Fields, name: &str) -> (r: Option<usize>)
    ensures
        match r {
            Some(i) => i < entries_of(*m).len() && entries_of(*m)[i as int].0 == name@,
            None => forall|k: int|
                0 <= k < entries_of(*m).len() ==> (#[trigger] entries_of(*m)[k]).0 != name@,
        },
{
    m.get_index_of(name)
}

/// Relies on `IndexMap::insert`: a name already present keeps its place and takes the new
/// value, and its old value is handed back; a new name goes last.
#[verifier::external_body]
fn fields_insert(m: &mut Fields, name: String, value: Field) -> (r: Option<Field>)
    ensures
        forall|i: int|
            0 <= i < entries_of(*old(m)).len() && (#[trigger] entries_of(*old(m))[i]).0 == name@
                ==> entries_of(*final(m)) == entries_of(*old(m)).update(i, (name@, value)) && r
                == Some(entries_of(*old(m))[i].1),
        (forall|i: int|
            0 <= i < entries_of(*old(m)).len() ==> (#[trigger] entries_of(*old(m))[i]).0 != name@)
            ==> entries_of(*final(m)) == entries_of(*old(m)).push((name@, value)) && r is None,
{
    m.insert(name, value)
}

/// The fields of an event or span, in the order of their first recording.
pub struct FieldMap {
    entries: Fields,
}

impl FieldMap {
    /// The entries as plain values.
    pub closed spec fn view(&self) -> Seq<Entry> {
        entries_of(self.entries).map_values(|e: (Seq<char>, Field)| (e.0, e.1.leaves()))
    }

    /// Names are unique; each value is well formed, and is a `Multiple` once it holds two
    /// values or more.
    pub closed spec fn wf(&self) -> bool {
        let e = entries_of(self.entries);
        &&& unique_names(e)
        &&& forall|i: int|
            0 <= i < e.len() ==> (#[trigger] e[i]).1.wf() && (e[i].1.is_multiple() <==> e[i].1.leaves().len() >= 2)
    }

    /// An empty map.
    pub fn new() -> (r: FieldMap)
        ensures
            r.wf(),
            r.view() == Seq::<Entry>::empty(),
    {
        let r = FieldMap { entries: fields_new() };
        proof {
            assert(r.view() =~= Seq::<Entry>::empty());
        }
        r
    }

    /// The number of entries.
    pub fn len(&self) -> (r: usize)
        ensures
            r == self.view().len(),
    {
        fields_len(&self.entries)
    }

    /// The entry at position `i` of the order of first recording.
    pub fn get_index(&self, i: usize) -> (r: Option<(&String, &Field)>)
        requires
            self.wf(),
        ensures
            r is Some <==> i < self.view().len(),
            r is Some ==> (r->Some_0.0@, r->Some_0.1.leaves()) == self.view()[i as int]
                && r->Some_0.1.wf(),
    {
        fields_get_index(&self.entries, i)
    }

    /// A map with the same entries.
    pub fn duplicate(&self) -> (r: FieldMap)
        requires
            self.wf(),
        ensures
            r.wf(),
            r.view() == self.view(),
    {
        let ghost src = entries_of(self.entries);
        let mut out = fields_new();
        let n = fields_len(&self.entries);
        let mut i: usize = 0;
        while i < n
            invariant
                self.wf(),
                src == entries_of(self.entries),
                n == src.len(),
                i <= n,
                entries_of(out).len() == i,
                unique_names(entries_of(out)),
                forall|k: int| 0 <= k < i ==> (#[trigger] entries_of(out)[k]).0 == src[k].0,
                forall|k: int| 0 <= k < i ==> (#[trigger] entries_of(out)[k]).1.leaves() == src[k].1.leaves(),
                forall|k: int| 0 <= k < i ==> (#[trigger] entries_of(out)[k]).1.wf(),
                forall|k: int| 0 <= k < i ==> (#[trigger] entries_of(out)[k]).1.is_multiple() == src[k].1.is_multiple(),
            decreases n - i,
        {
            match fields_get_index(&self.entries, i) {
                Some((k, f)) => {
                    let ghost before = entries_of(out);
                    proof {
                        assert forall|m: int| 0 <= m < before.len() implies (#[trigger] before[m]).0 != k@ by {
                            assert(src[m].0 != src[i as int].0);
                        }
                    }
                    let _ = fields_insert(&mut out, k.clone(), f.duplicate());
                    proof {
                        assert forall|a: int, b: int| 0 <= a < b < entries_of(out).len() implies (
                        #[trigger] entries_of(out)[a]).0 != (#[trigger] entries_of(out)[b]).0 by {
                            if b < i {
                                assert(entries_of(out)[a] == before[a]);
                                assert(entries_of(out)[b] == before[b]);
                            } else {
                                assert(entries_of(out)[a] == before[a]);
                            }
                        }
                    }
                },
                None => {},
            }
            i = i + 1;
        }
        let r = FieldMap { entries: out };
        assert(r.view() =~= self.view());
        r
    }

    /// The value recorded under `name`, if any.
    pub fn get(&self, name: &str) -> (r: Option<&Field>)
        requires
            self.wf(),
        ensures
            match r {
                Some(f) => f.wf() && (f.is_multiple() <==> f.leaves().len() >= 2) && exists|i: int|
                    0 <= i < self.view().len() && (#[trigger] self.view()[i]) == (name@, f.leaves()),
                None => !has_name(self.view(), name@),
            },
    {
        match fields_index_of(&self.entries, name) {
            Some(i) => match fields_get_index(&self.entries, i) {
                Some((_, f)) => {
                    proof {
                        assert(self.view()[i as int] == (name@, f.leaves()));
                    }
                    Some(f)
                },
                None => None,
            },
            None => {
                proof {
                    if has_name(self.view(), name@) {
                        let i = choose|i: int|
                            0 <= i < self.view().len() && (#[trigger] self.view()[i]).0 == name@;
                        assert(entries_of(self.entries)[i].0 == name@);
                    }
                }
                None
            },
        }
    }

    /// Records `value` under `name` by the recording rule.
    pub fn record(&mut self, name: &str, value: Field)
        requires
            old(self).wf(),
            !value.is_multiple(),
        ensures
            final(self).wf(),
            final(self).view() == record_entry(old(self).view(), name@, value.leaf()),
    {
        let ghost m = self.view();
        let ghost e0 = entries_of(self.entries);
        let key = name.to_owned();
        match fields_index_of(&self.entries, name) {
            Some(i) => {
                let taken = fields_insert(&mut self.entries, key.clone(), Field::Bool(false));
                let ghost e1 = entries_of(self.entries);
                assert(e1 == e0.update(i as int, (name@, Field::Bool(false))));
                match taken {
                    Some(old_field) => {
                        assert(old_field == e0[i as int].1);
                        let f = old_field.recorded(value);
                        assert(e1[i as int].0 == name@);
                        let _ = fields_insert(&mut self.entries, key, f);
                        proof {
                            let e2 = entries_of(self.entries);
                            assert(e2 =~= e0.update(i as int, (name@, f)));
                            let j = choose|j: int| 0 <= j < m.len() && (#[trigger] m[j]).0 == name@;
                            assert(m[i as int].0 == name@);
                            if j != i {
                                assert(e0[j].0 == e0[i as int].0);
                                assert(false);
                            }
                            assert(self.view() =~= m.update(i as int, (name@, m[i as int].1.push(value.leaf()))));
                            assert forall|a: int, b: int| 0 <= a < b < e2.len() implies (#[trigger] e2[a]).0 != (
                                #[trigger] e2[b]).0 by {
                                assert(e0[a].0 != e0[b].0);
                            }
                        }
                    },
                    None => {},
                }
            },
            None => {
                let _ = fields_insert(&mut self.entries, key, value);
                proof {
                    let e2 = entries_of(self.entries);
                    assert(e2 == e0.push((name@, value)));
                    assert(value.leaves() =~= seq![value.leaf()]);
                    if has_name(m, name@) {
                        let j = choose|j: int| 0 <= j < m.len() && (#[trigger] m[j]).0 == name@;
                        assert(e0[j].0 == name@);
                    }
                    assert(self.view() =~= m.push((name@, seq![value.leaf()])));
                }
            },
        }
    }
}

/// A record of a span: where it was opened, its fields, and the span it was opened in.
pub struct Span {
    meta: Meta,
    fields: FieldMap,
    parent: Option<Arc<Span>>,
    depth: Ghost<nat>,
}

impl Span {
    pub closed spec fn spec_meta(&self) -> Meta {
        self.meta
    }

    pub closed spec fn spec_fields(&self) -> Seq<Entry> {
        self.fields.view()
    }

    pub closed spec fn spec_parent(&self) -> Option<Span> {
        match self.parent {
            Some(p) => Some(*p),
            None => None,
        }
    }

    /// How many spans enclose this one.
    pub closed spec fn depth(&self) -> nat {
        self.depth@
    }

    /// The fields are well formed, here and in every enclosing span, and each enclosing span
    /// stands one level up.
    pub closed spec fn wf(&self) -> bool
        decreases self.depth(),
    {
        &&& self.fields.wf()
        &&& match self.parent {
            Some(p) => p.depth@ + 1 == self.depth@ && p.wf(),
            None => self.depth@ == 0,
        }
    }

    /// This span, then each span that encloses it, innermost first.
    pub open spec fn chain(&self) -> Seq<Span>
        decreases self.depth(),
    {
        if self.wf() {
            match self.spec_parent() {
                Some(p) => if p.depth() < self.depth() {
                    seq![*self] + p.chain()
                } else {
                    seq![*self]
                },
                None => seq![*self],
            }
        } else {
            seq![*self]
        }
    }

    pub proof fn lemma_wf_parent(&self)
        requires
            self.wf(),
        ensures
            self.spec_parent() matches Some(p) ==> p.wf() && p.depth() + 1 == self.depth(),
            self.spec_parent() is None ==> self.depth() == 0,
    {
    }

    /// A new span with no fields, opened inside `parent`.
    pub fn new(meta: Meta, parent: Option<Arc<Span>>) -> (r: Span)
        requires
            parent matches Some(p) ==> p.wf(),
        ensures
            r.wf(),
            r.spec_meta() == meta,
            r.spec_fields() == Seq::<Entry>::empty(),
            r.spec_parent() == (match parent {
                Some(p) => Some(*p),
                None => None::<Span>,
            }),
    {
        let depth = match &parent {
            Some(p) => Ghost(p.depth@ + 1),
            None => Ghost(0nat),
        };
        Span { meta, fields: FieldMap::new(), parent, depth }
    }

    /// A span with the same description, fields and enclosing span.
    pub fn duplicate(&self) -> (r: Span)
        requires
            self.wf(),
        ensures
            r.wf(),
            r.spec_meta().target@ == self.spec_meta().target@,
            r.spec_meta().name@ == self.spec_meta().name@,
            r.spec_meta().level == self.spec_meta().level,
            r.spec_fields() == self.spec_fields(),
            r.spec_parent() == self.spec_parent(),
            r.depth() == self.depth(),
    {
        let parent = match &self.parent {
            Some(p) => Some(Arc::clone(p)),
            None => None,
        };
        Span { meta: self.meta.duplicate(), fields: self.fields.duplicate(), parent, depth: Ghost(self.depth@) }
    }

    /// The description of where this span was opened.
    pub fn meta(&self) -> (r: &Meta)
        ensures
            *r == self.spec_meta(),
    {
        &self.meta
    }

    /// A recorded field on this span.
    pub fn field(&self, name: &str) -> (r: Option<&Field>)
        requires
            self.wf(),
        ensures
            match r {
                Some(f) => f.wf() && (f.is_multiple() <==> f.leaves().len() >= 2) && exists|i: int|
                    0 <= i < self.spec_fields().len() && (#[trigger] self.spec_fields()[i]) == (name@, f.leaves()),
                None => !has_name(self.spec_fields(), name@),
            },
    {
        let r = self.fields.get(name);
        proof {
            if let Some(f) = r {
                let i = choose|i: int|
                    0 <= i < self.fields.view().len() && (#[trigger] self.fields.view()[i]) == (name@, f.leaves());
                assert(self.spec_fields()[i] == (name@, f.leaves()));
            }
        }
        r
    }

    /// All recorded fields on this span, in the order of their first recording.
    pub fn fields(&self) -> (r: &FieldMap)
        requires
            self.wf(),
        ensures
            r.wf(),
            r.view() == self.spec_fields(),
    {
        &self.fields
    }

    /// The span this one was opened in, if any.
    pub fn parent(&self) -> (r: Option<&Span>)
        requires
            self.wf(),
        ensures
            match r {
                Some(p) => self.spec_parent() == Some(*p) && p.wf() && p.depth() + 1 == self.depth(),
                None => self.spec_parent() is None,
            },
    {
        match &self.parent {
            Some(p) => Some(&**p),
            None => None,
        }
    }

    /// Records `value` under `name` by the recording rule.
    pub fn record_field(&mut self, name: &str, value: Field)
        requires
            old(self).wf(),
            !value.is_multiple(),
        ensures
            final(self).wf(),
            final(self).spec_meta() == old(self).spec_meta(),
            final(self).spec_parent() == old(self).spec_parent(),
            final(self).depth() == old(self).depth(),
            final(self).spec_fields() == record_entry(old(self).spec_fields(), name@, value.leaf()),
    {
        self.fields.record(name, value);
    }
}

/// A record of an event: where it was emitted, when, its fields, and the innermost span it
/// was emitted in.
pub struct Event {
    meta: Meta,
    timestamp: i64,
    fields: FieldMap,
    span: Option<Arc<Span>>,
}

impl Event {
    pub closed spec fn spec_meta(&self) -> Meta {
        self.meta
    }

    pub closed spec fn spec_timestamp(&self) -> i64 {
        self.timestamp
    }

    pub closed spec fn spec_fields(&self) -> Seq<Entry> {
        self.fields.view()
    }

    pub closed spec fn spec_span(&self) -> Option<Span> {
        match self.span {
            Some(p) => Some(*p),
            None => None,
        }
    }

    pub closed spec fn wf(&self) -> bool {
        &&& self.fields.wf()
        &&& self.span matches Some(p) ==> p.wf()
    }

    /// The spans the event was emitted in, innermost first.
    pub open spec fn chain(&self) -> Seq<Span> {
        match self.spec_span() {
            Some(s) => s.chain(),
            None => seq![],
        }
    }

    /// A new event with no fields, stamped `timestamp` (milliseconds of local wall-clock time).
    pub fn new(meta: Meta, timestamp: i64, span: Option<Arc<Span>>) -> (r: Event)
        requires
            span matches Some(p) ==> p.wf(),
        ensures
            r.wf(),
            r.spec_meta() == meta,
            r.spec_timestamp() == timestamp,
            r.spec_fields() == Seq::<Entry>::empty(),
            r.spec_span() == (match span {
                Some(p) => Some(*p),
                None => None::<Span>,
            }),
    {
        Event { meta, timestamp, fields: FieldMap::new(), span }
    }

    /// The description of where this event was emitted.
    pub fn meta(&self) -> (r: &Meta)
        ensures
            *r == self.spec_meta(),
    {
        &self.meta
    }

    /// The time at which this event was emitted, in milliseconds.
    pub fn timestamp(&self) -> (r: i64)
        ensures
            r == self.spec_timestamp(),
    {
        self.timestamp
    }

    /// A recorded field on this event.
    pub fn field(&self, name: &str) -> (r: Option<&Field>)
        requires
            self.wf(),
        ensures
            match r {
                Some(f) => f.wf() && (f.is_multiple() <==> f.leaves().len() >= 2) && exists|i: int|
                    0 <= i < self.spec_fields().len() && (#[trigger] self.spec_fields()[i]) == (name@, f.leaves()),
                None => !has_name(self.spec_fields(), name@),
            },
    {
        let r = self.fields.get(name);
        proof {
            if let Some(f) = r {
                let i = choose|i: int|
                    0 <= i < self.fields.view().len() && (#[trigger] self.fields.view()[i]) == (name@, f.leaves());
                assert(self.spec_fields()[i] == (name@, f.leaves()));
            }
        }
        r
    }

    /// All recorded fields on this event, in the order of their first recording.
    pub fn fields(&self) -> (r: &FieldMap)
        requires
            self.wf(),
        ensures
            r.wf(),
            r.view() == self.spec_fields(),
    {
        &self.fields
    }

    /// The innermost span the event was emitted in, if any.
    pub fn span(&self) -> (r: Option<&Span>)
        requires
            self.wf(),
        ensures
            match r {
                Some(p) => self.spec_span() == Some(*p) && p.wf(),
                None => self.spec_span() is None,
            },
    {
        match &self.span {
            Some(p) => Some(&**p),
            None => None,
        }
    }

    /// Records `value` under `name` by the recording rule.
    pub fn record_field(&mut self, name: &str, value: Field)
        requires
            old(self).wf(),
            !value.is_multiple(),
        ensures
            final(self).wf(),
            final(self).spec_meta() == old(self).spec_meta(),
            final(self).spec_timestamp() == old(self).spec_timestamp(),
            final(self).spec_span() == old(self).spec_span(),
            final(self).spec_fields() == record_entry(old(self).spec_fields(), name@, value.leaf()),
    {
        self.fields.record(name, value);
    }
}

/// Every event published so far: those already taken in by a snapshot, in order, and those
/// published since, in order.
pub struct Archive {
    events: Vec<Arc<Event>>,
    pending: Vec<Arc<Event>>,
}

impl Archive {
    pub closed spec fn spec_events(&self) -> Seq<Arc<Event>> {
        self.events@
    }

    pub closed spec fn spec_pending(&self) -> Seq<Arc<Event>> {
        self.pending@
    }

    /// An archive with no events.
    pub fn new() -> (r: Archive)
        ensures
            r.spec_events() == Seq::<Arc<Event>>::empty(),
            r.spec_pending() == Seq::<Arc<Event>>::empty(),
    {
        Archive { events: Vec::new(), pending: Vec::new() }
    }

    /// Publishes an event; the next snapshot takes it in.
    pub fn publish(&mut self, event: Arc<Event>)
        ensures
            final(self).spec_events() == old(self).spec_events(),
            final(self).spec_pending() == old(self).spec_pending().push(event),
    {
        self.pending.push(event);
    }

    /// Takes in every pending event after those held, in publication order.
    pub fn snapshot(&mut self)
        ensures
            final(self).spec_pending() == Seq::<Arc<Event>>::empty(),
            final(self).spec_events() == old(self).spec_events() + old(self).spec_pending(),
    {
        self.events.append(&mut self.pending);
    }

    /// Hands out the events taken in so far, for the caller to hold alone; the archive keeps
    /// none until they are restored.
    pub fn take_events(&mut self) -> (r: Vec<Arc<Event>>)
        ensures
            r@ == old(self).spec_events(),
            final(self).spec_events() == Seq::<Arc<Event>>::empty(),
            final(self).spec_pending() == old(self).spec_pending(),
    {
        let mut out: Vec<Arc<Event>> = Vec::new();
        out.append(&mut self.events);
        out
    }

    /// Puts back the events handed out, as the caller left them.
    pub fn restore_events(&mut self, events: Vec<Arc<Event>>)
        ensures
            final(self).spec_events() == events@,
            final(self).spec_pending() == old(self).spec_pending(),
    {
        self.events = events;
    }

    /// The events taken in so far, in order.
    pub fn events(&self) -> (r: &Vec<Arc<Event>>)
        ensures
            r@ == self.spec_events(),
    {
        &self.events
    }
}

/// Each published event shows up once in the next snapshot, after every event held before,
/// and in the order of publication.
pub proof fn lemma_snapshot_order(held: Seq<Arc<Event>>, published: Seq<Arc<Event>>, k: int)
    requires
        0 <= k < published.len(),
    ensures
        (held + published)[held.len() + k] == published[k],
        (held + published).subrange(0, held.len() as int) == held,
        (held + published).len() == held.len() + published.len(),
{
    assert((held + published).subrange(0, held.len() as int) =~= held);
}

/// The chain walked up from a span is the span itself, then the chain of the span it was
/// opened in: the very records built when those spans were opened, each one level up.
pub proof fn lemma_chain_shape(s: Span)
    requires
        s.wf(),
    ensures
        s.chain() == seq![s] + match s.spec_parent() {
            Some(p) => p.chain(),
            None => Seq::<Span>::empty(),
        },
        s.spec_parent() matches Some(p) ==> p.wf() && p.depth() < s.depth(),
{
    s.lemma_wf_parent();
    if s.spec_parent() is None {
        assert(seq![s] + Seq::<Span>::empty() =~= seq![s]);
    }
}

} // verus!
