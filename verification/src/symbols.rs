//! Symbol index: definitions, references and the document outline.
use vstd::prelude::*;
use vstd::hash_map::StringHashMap;
use vstd::utf8::*;

use crate::diagnostic::Span;
use crate::text::{lemma_lower_valid, lower_seq, sb, to_lower};

verus! {

/// Kind of indexed SPICE symbol.
#[derive(Debug, Clone, Copy, PartialEq, Eq, Hash, Structural)]
pub enum SymbolKind {
    Subckt,
    Model,
    Param,
    Instance,
}

/// A definition or reference occurrence in the source.
#[derive(Debug, PartialEq, Eq)]
pub struct Symbol {
    pub kind: SymbolKind,
    pub name: String,
    /// Span covering the symbol name (for navigation/hover).
    pub name_span: Span,
    /// Full line span.
    pub line_span: Span,
    /// `.subckt` name containing this symbol, empty at top level.
    pub scope: String,
}

/// Mathematical view of a symbol.
pub struct SymbolV {
    pub kind: SymbolKind,
    pub name: Seq<char>,
    pub name_span: Span,
    pub line_span: Span,
    pub scope: Seq<char>,
}

impl View for Symbol {
    type V = SymbolV;

    open spec fn view(&self) -> SymbolV {
        SymbolV {
            kind: self.kind,
            name: self.name@,
            name_span: self.name_span,
            line_span: self.line_span,
            scope: self.scope@,
        }
    }
}

/// Hierarchical entry for document symbols.
#[derive(Debug, PartialEq, Eq)]
pub struct DocumentSymbolEntry {
    pub name: String,
    pub kind: SymbolKind,
    pub name_span: Span,
    pub line_span: Span,
    pub children: Vec<DocumentSymbolEntry>,
}

/// An outline entry without its children.
pub struct DocLeafV {
    pub name: Seq<char>,
    pub kind: SymbolKind,
    pub name_span: Span,
    pub line_span: Span,
}

/// An outline entry with its (leaf) children.
pub struct DocV {
    pub name: Seq<char>,
    pub kind: SymbolKind,
    pub name_span: Span,
    pub line_span: Span,
    pub children: Seq<DocLeafV>,
}

pub open spec fn leaf_view(e: DocumentSymbolEntry) -> DocLeafV {
    DocLeafV { name: e.name@, kind: e.kind, name_span: e.name_span, line_span: e.line_span }
}

/// The view of an outline entry; entries built here have leaf children.
pub open spec fn doc_view(e: DocumentSymbolEntry) -> DocV {
    DocV {
        name: e.name@,
        kind: e.kind,
        name_span: e.name_span,
        line_span: e.line_span,
        children: e.children@.map_values(|c: DocumentSymbolEntry| leaf_view(c)),
    }
}

/// All children of an outline entry are leaves.
pub open spec fn doc_wf(e: DocumentSymbolEntry) -> bool {
    forall|i: int| 0 <= i < e.children@.len() ==> (#[trigger] e.children@[i]).children@.len() == 0
}

pub open spec fn docs_view(d: Seq<DocumentSymbolEntry>) -> Seq<DocV> {
    d.map_values(|e: DocumentSymbolEntry| doc_view(e))
}

pub open spec fn syms_view(s: Seq<Symbol>) -> Seq<SymbolV> {
    s.map_values(|x: Symbol| x@)
}

/// The lookup key of a name: its ASCII-lowercased text.
pub open spec fn lkey(name: Seq<char>) -> Seq<char> {
    decode_utf8(lower_seq(sb(name)))
}

/// Two names have the same lookup key exactly when they are equal ignoring
/// ASCII case, as `str::eq_ignore_ascii_case` compares them: their ASCII
/// lowercase bytes agree.
pub proof fn law_lkey_ignores_ascii_case(a: Seq<char>, b: Seq<char>)
    ensures
        (lkey(a) == lkey(b)) == (lower_seq(sb(a)) == lower_seq(sb(b))),
{
    encode_utf8_valid_utf8(a);
    encode_utf8_valid_utf8(b);
    lemma_lower_valid(sb(a));
    lemma_lower_valid(sb(b));
    decode_utf8_encode_utf8(lower_seq(sb(a)));
    decode_utf8_encode_utf8(lower_seq(sb(b)));
}

/// The lowercased name as a string.
pub fn key_of(name: &str) -> (k: String)
    ensures
        k@ == lkey(name@),
        sb(k@) == lower_seq(sb(name@)),
{
    let k = to_lower(name);
    proof {
        encode_utf8_decode_utf8(k@);
    }
    k
}

/// A copy of a list of spans.
pub fn copy_spans(v: &Vec<Span>) -> (r: Vec<Span>)
    ensures
        r@ == v@,
{
    let mut r: Vec<Span> = Vec::new();
    let mut i: usize = 0;
    while i < v.len()
        invariant
            i <= v@.len(),
            r@ == v@.subrange(0, i as int),
        decreases v@.len() - i,
    {
        r.push(v[i]);
        i = i + 1;
        assert(r@ =~= v@.subrange(0, i as int));
    }
    assert(v@.subrange(0, v@.len() as int) =~= v@);
    r
}

/// Map keyed by `(kind, lowercase name)` with the order in which keys first
/// appeared.
pub struct KeyedV {
    pub map: Map<(SymbolKind, Seq<char>), Seq<Span>>,
    pub order: Seq<(SymbolKind, Seq<char>)>,
}

/// Record `span` under `(kind, key)`.
pub open spec fn keyed_add(m: KeyedV, kind: SymbolKind, key: Seq<char>, span: Span) -> KeyedV {
    if m.map.contains_key((kind, key)) {
        KeyedV { map: m.map.insert((kind, key), m.map[(kind, key)].push(span)), order: m.order }
    } else {
        KeyedV { map: m.map.insert((kind, key), seq![span]), order: m.order.push((kind, key)) }
    }
}

/// Record `span` under `(kind, key)` only when the key is new.
pub open spec fn keyed_add_first(m: KeyedV, kind: SymbolKind, key: Seq<char>, span: Span) -> KeyedV {
    if m.map.contains_key((kind, key)) {
        m
    } else {
        KeyedV { map: m.map.insert((kind, key), seq![span]), order: m.order.push((kind, key)) }
    }
}

pub open spec fn keyed_empty() -> KeyedV {
    KeyedV { map: Map::empty(), order: seq![] }
}

/// Spans stored per kind in hash maps keyed by the lowercase name.
pub struct KindMaps {
    subckt: StringHashMap<Vec<Span>>,
    model: StringHashMap<Vec<Span>>,
    param: StringHashMap<Vec<Span>>,
    instance: StringHashMap<Vec<Span>>,
    order: Vec<(SymbolKind, String)>,
}

impl KindMaps {
    pub closed spec fn part(&self, kind: SymbolKind) -> Map<Seq<char>, Vec<Span>> {
        match kind {
            SymbolKind::Subckt => self.subckt@,
            SymbolKind::Model => self.model@,
            SymbolKind::Param => self.param@,
            SymbolKind::Instance => self.instance@,
        }
    }

    pub closed spec fn view(&self) -> KeyedV {
        KeyedV {
            map: Map::new(
                |k: (SymbolKind, Seq<char>)| self.part(k.0).contains_key(k.1),
                |k: (SymbolKind, Seq<char>)| self.part(k.0)[k.1]@,
            ),
            order: self.order@.map_values(|e: (SymbolKind, String)| (e.0, e.1@)),
        }
    }

    pub fn new() -> (m: Self)
        ensures
            m.view() == keyed_empty(),
    {
        let m = KindMaps {
            subckt: StringHashMap::new(),
            model: StringHashMap::new(),
            param: StringHashMap::new(),
            instance: StringHashMap::new(),
            order: Vec::new(),
        };
        assert(m.view().map =~= Map::<(SymbolKind, Seq<char>), Seq<Span>>::empty());
        assert(m.view().order =~= Seq::<(SymbolKind, Seq<char>)>::empty());
        m
    }

    /// The spans recorded under `(kind, key)`.
    pub fn get(&self, kind: SymbolKind, key: &str) -> (r: Option<&Vec<Span>>)
        ensures
            match r {
                Some(v) => self.view().map.contains_key((kind, key@)) && v@ == self.view().map[(
                    kind,
                    key@,
                )],
                None => !self.view().map.contains_key((kind, key@)),
            },
    {
        match kind {
            SymbolKind::Subckt => self.subckt.get(key),
            SymbolKind::Model => self.model.get(key),
            SymbolKind::Param => self.param.get(key),
            SymbolKind::Instance => self.instance.get(key),
        }
    }

    fn put(&mut self, kind: SymbolKind, key: String, v: Vec<Span>)
        ensures
            final(self).order@ == old(self).order@,
            forall|k: SymbolKind| k != kind ==> #[trigger] final(self).part(k) == old(self).part(k),
            final(self).part(kind) == old(self).part(kind).insert(key@, v),
    {
        match kind {
            SymbolKind::Subckt => self.subckt.insert(key, v),
            SymbolKind::Model => self.model.insert(key, v),
            SymbolKind::Param => self.param.insert(key, v),
            SymbolKind::Instance => self.instance.insert(key, v),
        }
    }

    /// Record `span` under `(kind, key)`.
    pub fn add(&mut self, kind: SymbolKind, key: String, span: Span)
        ensures
            final(self).view() == keyed_add(old(self).view(), kind, key@, span),
    {
        let ghost old_view = self.view();
        match self.get(kind, key.as_str()) {
            Some(v) => {
                let mut v2 = copy_spans(v);
                v2.push(span);
                self.put(kind, key, v2);
            },
            None => {
                let k2 = key.clone();
                self.order.push((kind, k2));
                let mut v2 = Vec::new();
                v2.push(span);
                self.put(kind, key, v2);
            },
        }
        proof {
            let nv = self.view();
            let ev = keyed_add(old_view, kind, key@, span);
            assert(nv.map =~= ev.map);
            assert(nv.order =~= ev.order);
        }
    }

    /// Record `span` under `(kind, key)` only when the key is new.
    pub fn add_first(&mut self, kind: SymbolKind, key: String, span: Span)
        ensures
            final(self).view() == keyed_add_first(old(self).view(), kind, key@, span),
    {
        let ghost old_view = self.view();
        match self.get(kind, key.as_str()) {
            Some(_) => {},
            None => {
                let k2 = key.clone();
                self.order.push((kind, k2));
                let mut v2 = Vec::new();
                v2.push(span);
                self.put(kind, key, v2);
                proof {
                    let nv = self.view();
                    let ev = keyed_add_first(old_view, kind, key@, span);
                    assert(nv.map =~= ev.map);
                    assert(nv.order =~= ev.order);
                }
            },
        }
    }

    /// The keys in first-seen order.
    pub fn keys(&self) -> (r: &Vec<(SymbolKind, String)>)
        ensures
            r@.map_values(|e: (SymbolKind, String)| (e.0, e.1@)) == self.view().order,
    {
        &self.order
    }
}


/// Every listed key is present with at least one span, and the keys are
/// listed once each.
pub open spec fn keyed_wf(m: KeyedV) -> bool {
    &&& forall|i: int|
        0 <= i < m.order.len() ==> m.map.contains_key(#[trigger] m.order[i]) && m.map[m.order[i]].len()
            > 0
    &&& forall|k: (SymbolKind, Seq<char>)| #[trigger] m.map.contains_key(k) ==> m.order.contains(k)
    &&& forall|i: int, j: int| 0 <= i < j < m.order.len() ==> m.order[i] != m.order[j]
}

pub proof fn lemma_keyed_add_wf(m: KeyedV, kind: SymbolKind, key: Seq<char>, span: Span)
    requires
        keyed_wf(m),
    ensures
        keyed_wf(keyed_add(m, kind, key, span)),
        keyed_wf(keyed_add_first(m, kind, key, span)),
{
    let k = (kind, key);
    if !m.map.contains_key(k) {
        let o2 = m.order.push(k);
        assert(o2[o2.len() - 1] == k);
        assert forall|q: (SymbolKind, Seq<char>)| #[trigger] m.map.insert(k, seq![span]).contains_key(q)
            implies o2.contains(q) by {
            if q == k {
                assert(o2[o2.len() - 1] == q);
            } else {
                assert(m.order.contains(q));
                let i = choose|i: int| 0 <= i < m.order.len() && m.order[i] == q;
                assert(o2[i] == q);
            }
        }
        assert forall|i: int, j: int| 0 <= i < j < o2.len() implies o2[i] != o2[j] by {
            if j == o2.len() - 1 {
                if o2[i] == k {
                    assert(m.order[i] == k);
                    assert(m.order.contains(k));
                }
            }
        }
    }
}

/// The first span recorded under a key, if any.
pub open spec fn first_of(m: KeyedV, kind: SymbolKind, key: Seq<char>) -> Option<Span> {
    if m.map.contains_key((kind, key)) && m.map[(kind, key)].len() > 0 {
        Some(m.map[(kind, key)][0])
    } else {
        None
    }
}

/// Index built from a parsed netlist.
pub struct Index {
    pub symbols: Vec<Symbol>,
    pub document_symbols: Vec<DocumentSymbolEntry>,
    /// Definition spans by `(kind, lowercase name)`.
    pub definitions: KindMaps,
    /// Reference spans by `(kind, lowercase name)`.
    pub references: KindMaps,
}

/// Mathematical view of an index.
pub struct IndexV {
    pub symbols: Seq<SymbolV>,
    pub docs: Seq<DocV>,
    pub defs: KeyedV,
    pub refs: KeyedV,
}

impl View for Index {
    type V = IndexV;

    open spec fn view(&self) -> IndexV {
        IndexV {
            symbols: syms_view(self.symbols@),
            docs: docs_view(self.document_symbols@),
            defs: self.defs(),
            refs: self.refs(),
        }
    }
}

impl Index {
    /// Definition spans keyed by `(kind, lowercase name)`.
    pub open spec fn defs(&self) -> KeyedV {
        self.definitions.view()
    }

    /// Reference spans keyed by `(kind, lowercase name)`.
    pub open spec fn refs(&self) -> KeyedV {
        self.references.view()
    }

    /// An empty index.
    pub fn new() -> (ix: Index)
        ensures
            ix@.symbols.len() == 0,
            ix@.docs.len() == 0,
            ix@.defs == keyed_empty(),
            ix@.refs == keyed_empty(),
    {
        Index {
            symbols: Vec::new(),
            document_symbols: Vec::new(),
            definitions: KindMaps::new(),
            references: KindMaps::new(),
        }
    }

    /// First definition span of `name` (case-insensitive) as `kind`.
    pub fn definition_span(&self, kind: SymbolKind, name: &str) -> (r: Option<Span>)
        ensures
            r == first_of(self@.defs, kind, lkey(name@)),
    {
        let key = key_of(name);
        match self.definitions.get(kind, key.as_str()) {
            Some(v) => {
                if v.len() > 0 {
                    Some(v[0])
                } else {
                    None
                }
            },
            None => None,
        }
    }

    pub fn has_definition(&self, kind: SymbolKind, name: &str) -> (r: bool)
        ensures
            r == first_of(self@.defs, kind, lkey(name@)) is Some,
    {
        self.definition_span(kind, name).is_some()
    }

    /// Whether `name` is defined as a model or subcircuit (case-insensitive).
    pub fn has_model_or_subckt(&self, name: &str) -> (r: bool)
        ensures
            r == (first_of(self@.defs, SymbolKind::Model, lkey(name@)) is Some || first_of(
                self@.defs,
                SymbolKind::Subckt,
                lkey(name@),
            ) is Some),
    {
        self.has_definition(SymbolKind::Model, name) || self.has_definition(SymbolKind::Subckt, name)
    }

    /// All reference spans of `name` (case-insensitive) as `kind`.
    pub fn reference_spans(&self, kind: SymbolKind, name: &str) -> (r: &[Span])
        ensures
            r@ == (if self@.refs.map.contains_key((kind, lkey(name@))) {
                self@.refs.map[(kind, lkey(name@))]
            } else {
                Seq::<Span>::empty()
            }),
    {
        let key = key_of(name);
        match self.references.get(kind, key.as_str()) {
            Some(v) => v.as_slice(),
            None => {
                let e: &[Span] = &[];
                assert(e@ =~= Seq::<Span>::empty());
                e
            },
        }
    }

    /// The first symbol whose name span contains `offset` (edges included).
    pub fn symbol_at_offset(&self, offset: usize) -> (r: Option<&Symbol>)
        ensures
            match r {
                Some(s) => exists|i: int|
                    0 <= i < self.symbols@.len() && self.symbols@[i] == *s && symbol_covers(
                        self.symbols@[i]@,
                        offset as int,
                    ) && forall|j: int|
                        0 <= j < i ==> !symbol_covers(#[trigger] self.symbols@[j]@, offset as int),
                None => forall|j: int|
                    0 <= j < self.symbols@.len() ==> !symbol_covers(
                        #[trigger] self.symbols@[j]@,
                        offset as int,
                    ),
            },
    {
        let mut i: usize = 0;
        while i < self.symbols.len()
            invariant
                i <= self.symbols@.len(),
                forall|j: int| 0 <= j < i ==> !symbol_covers(#[trigger] self.symbols@[j]@, offset as int),
            decreases self.symbols@.len() - i,
        {
            let s = &self.symbols[i];
            if offset >= s.name_span.start && offset <= s.name_span.end {
                return Some(s);
            }
            i = i + 1;
        }
        None
    }

    /// All definition keys `(kind, lowercase name)`, in first-seen order.
    pub fn definition_names(&self) -> (r: Vec<(SymbolKind, String)>)
        ensures
            r@.map_values(|e: (SymbolKind, String)| (e.0, e.1@)) == self@.defs.order,
    {
        let keys = self.definitions.keys();
        let mut out: Vec<(SymbolKind, String)> = Vec::new();
        let mut i: usize = 0;
        while i < keys.len()
            invariant
                i <= keys@.len(),
                out@.len() == i,
                out@.map_values(|e: (SymbolKind, String)| (e.0, e.1@)) == keys@.subrange(
                    0,
                    i as int,
                ).map_values(|e: (SymbolKind, String)| (e.0, e.1@)),
            decreases keys@.len() - i,
        {
            let e = &keys[i];
            let c = e.1.clone();
            let ghost before = out@;
            out.push((e.0, c));
            assert(out@ == before.push((e.0, c)));
            assert(c@ == keys@[i as int].1@);
            i = i + 1;
            assert forall|j: int| 0 <= j < i implies (out@[j].0, out@[j].1@) == (
                keys@[j].0,
                keys@[j].1@,
            ) by {
                if j < i - 1 {
                    assert(before.map_values(|e: (SymbolKind, String)| (e.0, e.1@))[j] == keys@.subrange(
                        0,
                        i - 1,
                    ).map_values(|e: (SymbolKind, String)| (e.0, e.1@))[j]);
                }
            }
            assert(out@.map_values(|e: (SymbolKind, String)| (e.0, e.1@)) =~= keys@.subrange(
                0,
                i as int,
            ).map_values(|e: (SymbolKind, String)| (e.0, e.1@)));
        }
        assert(keys@.subrange(0, keys@.len() as int) =~= keys@);
        out
    }

    pub fn add_definition(&mut self, kind: SymbolKind, name: &str, span: Span)
        ensures
            final(self)@ == (IndexV {
                defs: keyed_add(old(self)@.defs, kind, lkey(name@), span),
                ..old(self)@
            }),
            final(self).document_symbols@ == old(self).document_symbols@,
    {
        let key = key_of(name);
        self.definitions.add(kind, key, span);
    }

    pub fn add_reference(&mut self, kind: SymbolKind, name: &str, span: Span)
        ensures
            final(self)@ == (IndexV {
                refs: keyed_add(old(self)@.refs, kind, lkey(name@), span),
                ..old(self)@
            }),
            final(self).document_symbols@ == old(self).document_symbols@,
    {
        let key = key_of(name);
        self.references.add(kind, key, span);
    }

    /// Record at most one reference span per `(kind, name)`.
    pub fn add_reference_first(&mut self, kind: SymbolKind, name: &str, span: Span)
        ensures
            final(self)@ == (IndexV {
                refs: keyed_add_first(old(self)@.refs, kind, lkey(name@), span),
                ..old(self)@
            }),
            final(self).document_symbols@ == old(self).document_symbols@,
    {
        let key = key_of(name);
        self.references.add_first(kind, key, span);
    }
}

/// Model names referenced from instances, each with its first span, in
/// first-seen order.
pub open spec fn model_sites(order: Seq<(SymbolKind, Seq<char>)>, refs: KeyedV) -> Seq<
    (Seq<char>, Span),
>
    decreases order.len(),
{
    if order.len() == 0 {
        seq![]
    } else {
        let r = model_sites(order.drop_last(), refs);
        let k = order.last();
        if k.0 == SymbolKind::Model && refs.map.contains_key(k) && refs.map[k].len() > 0 {
            r.push((k.1, refs.map[k][0]))
        } else {
            r
        }
    }
}

impl Index {
    /// Unique model names referenced from instances, with a representative span.
    pub fn model_reference_sites(&self) -> (r: Vec<(String, Span)>)
        ensures
            r@.map_values(|e: (String, Span)| (e.0@, e.1)) == model_sites(self@.refs.order, self@.refs),
    {
        let keys = self.references.keys();
        let ghost order = self@.refs.order;
        let mut out: Vec<(String, Span)> = Vec::new();
        let mut i: usize = 0;
        while i < keys.len()
            invariant
                i <= keys@.len(),
                order == self@.refs.order,
                keys@.map_values(|e: (SymbolKind, String)| (e.0, e.1@)) == order,
                out@.map_values(|e: (String, Span)| (e.0@, e.1)) == model_sites(
                    order.take(i as int),
                    self@.refs,
                ),
            decreases keys@.len() - i,
        {
            let ghost before = out@.map_values(|e: (String, Span)| (e.0@, e.1));
            proof {
                assert(order.take(i + 1).drop_last() =~= order.take(i as int));
                assert(order.take(i + 1).last() == order[i as int]);
                assert(order[i as int] == (keys@[i as int].0, keys@[i as int].1@));
            }
            let kind = keys[i].0;
            if kind == SymbolKind::Model {
                match self.references.get(kind, keys[i].1.as_str()) {
                    Some(v) => {
                        if v.len() > 0 {
                            let name = keys[i].1.clone();
                            out.push((name, v[0]));
                            proof {
                                assert(out@.map_values(|e: (String, Span)| (e.0@, e.1)) =~= before.push(
                                    (name@, v@[0]),
                                ));
                            }
                        }
                    },
                    None => {},
                }
            }
            i = i + 1;
        }
        proof {
            assert(order.take(i as int) =~= order);
        }
        out
    }
}

/// The name span of a symbol contains `offset` (both edges included).
pub open spec fn symbol_covers(s: SymbolV, offset: int) -> bool {
    s.name_span.start <= offset <= s.name_span.end
}

} // verus!
