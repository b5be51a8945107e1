//! Curated SPICE dialect reference corpus for hover and completion: entries
//! keyed by corpus (`shared` or a dialect id), kind and normalized name.
use vstd::prelude::*;
use vstd::utf8::*;

use crate::dialect::{dialect_id, Dialect};
use crate::hover_token::{HoverKind, HoverToken};
use crate::text::{
    append_str, lemma_ascii_boundary, lemma_str_valid, lower_seq, owned, sb, string_of, to_lower,
    to_upper, trim_exec, trim_win, upper_seq,
};

verus! {

#[derive(Debug, Clone)]
pub struct ReferenceParameter {
    pub name: String,
    pub description: String,
    pub units: Option<String>,
}

#[derive(Debug, Clone)]
pub struct ReferenceEntry {
    pub id: String,
    pub kind: String,
    pub name: String,
    pub summary: String,
    pub syntax: String,
    pub parameters: Vec<ReferenceParameter>,
    pub examples: Vec<String>,
    pub see_also: Vec<String>,
    pub diagnostics: Vec<String>,
    pub since: Option<String>,
    pub deprecated: Option<String>,
    pub dialect_notes: Option<String>,
}

// ---------------------------------------------------------------------------
// Markdown rendering
// ---------------------------------------------------------------------------

/// Every `|` preceded by a backslash, so the text fits in a table cell.
pub open spec fn escape_bytes(b: Seq<u8>) -> Seq<u8>
    decreases b.len(),
{
    if b.len() == 0 {
        seq![]
    } else {
        escape_bytes(b.drop_last()) + if b.last() == 124u8 {
            seq![92u8, 124u8]
        } else {
            seq![b.last()]
        }
    }
}

/// Text for a table cell: each `|` escaped with a backslash.
pub open spec fn escape_cells(s: Seq<char>) -> Seq<char> {
    decode_utf8(escape_bytes(sb(s)))
}

proof fn lemma_escape_plain(x: Seq<u8>, y: Seq<u8>)
    requires
        forall|i: int| 0 <= i < y.len() ==> y[i] != 124u8,
    ensures
        escape_bytes(x + y) == escape_bytes(x) + y,
    decreases y.len(),
{
    if y.len() == 0 {
        assert(x + y =~= x);
        assert(escape_bytes(x) + y =~= escape_bytes(x));
    } else {
        lemma_escape_plain(x, y.drop_last());
        assert((x + y).drop_last() =~= x + y.drop_last());
        assert(escape_bytes(x) + y.drop_last() + seq![y.last()] =~= escape_bytes(x) + y);
    }
}

fn escape_cells_exec(s: &str) -> (r: String)
    ensures
        r@ == escape_cells(s@),
{
    let b = s.as_bytes();
    proof {
        lemma_str_valid(s);
        is_char_boundary_start_end_of_seq(b@);
        reveal_strlit("\\|");
        crate::text::lemma_ascii_sb("\\|"@);
    }
    let mut out = owned("");
    let mut seg: usize = 0;
    let mut i: usize = 0;
    proof {
        reveal_strlit("");
        assert(out@ =~= Seq::<char>::empty());
        assert(sb(out@) =~= escape_bytes(b@.subrange(0, 0)));
    }
    while i < b.len()
        invariant
            seg <= i <= b@.len(),
            b@ == sb(s@),
            valid_utf8(b@),
            is_char_boundary(b@, seg as int),
            sb("\\|"@) == seq![92u8, 124u8],
            sb(out@) == escape_bytes(b@.subrange(0, seg as int)),
            forall|j: int| seg <= j < i ==> b@[j] != 124u8,
        decreases b@.len() - i,
    {
        if b[i] == 124 {
            proof {
                lemma_ascii_boundary(b@, i as int);
            }
            let piece = string_of(b, seg, i);
            let ghost before = sb(out@);
            append_str(&mut out, piece.as_str());
            append_str(&mut out, "\\|");
            proof {
                let pre = b@.subrange(0, seg as int);
                let mid = b@.subrange(seg as int, i as int);
                lemma_escape_plain(pre, mid);
                assert(pre + mid =~= b@.subrange(0, i as int));
                assert(b@.subrange(0, i + 1) =~= b@.subrange(0, i as int).push(124u8));
                assert(b@.subrange(0, i + 1).drop_last() =~= b@.subrange(0, i as int));
                assert(sb(out@) =~= escape_bytes(b@.subrange(0, i + 1)));
            }
            seg = i + 1;
        }
        i = i + 1;
    }
    proof {
        is_char_boundary_start_end_of_seq(b@);
    }
    let piece = string_of(b, seg, b.len());
    append_str(&mut out, piece.as_str());
    proof {
        let pre = b@.subrange(0, seg as int);
        let mid = b@.subrange(seg as int, b@.len() as int);
        lemma_escape_plain(pre, mid);
        assert(pre + mid =~= b@);
        encode_utf8_decode_utf8(out@);
    }
    out
}

/// One table row of a parameter.
pub open spec fn param_row(p: ReferenceParameter) -> Seq<char> {
    "| `"@ + p.name@ + "` | "@ + escape_cells(p.description@) + " | "@ + match p.units {
        Some(u) => u@,
        None => Seq::empty(),
    } + " |\n"@
}

pub open spec fn param_rows(ps: Seq<ReferenceParameter>) -> Seq<char>
    decreases ps.len(),
{
    if ps.len() == 0 {
        Seq::empty()
    } else {
        param_rows(ps.drop_last()) + param_row(ps.last())
    }
}

pub open spec fn example_lines(es: Seq<String>) -> Seq<char>
    decreases es.len(),
{
    if es.len() == 0 {
        Seq::empty()
    } else {
        example_lines(es.drop_last()) + "- `"@ + es.last()@ + "`\n"@
    }
}

pub open spec fn dialect_label(d: Dialect) -> Seq<char> {
    match d {
        Dialect::Hspice => "HSPICE"@,
        Dialect::Ngspice => "Ngspice"@,
        Dialect::Ltspice => "LTspice"@,
    }
}

/// The hover markdown of an entry: heading with name and summary, dialect
/// label, syntax block, parameter table, examples and dialect notes.
pub open spec fn markdown(e: ReferenceEntry, d: Dialect) -> Seq<char> {
    "### `"@ + e.name@ + "` — "@ + e.summary@ + "\n\n"@ + "**Dialect:** "@ + dialect_label(d)
        + "\n\n"@ + "```\n"@ + e.syntax@ + "\n```\n"@ + (if e.parameters@.len() > 0 {
        "\n| Parameter | Description | Units |\n"@ + "|-----------|-------------|-------|\n"@
            + param_rows(e.parameters@)
    } else {
        Seq::empty()
    }) + (if e.examples@.len() > 0 {
        "\n**Examples**\n"@ + example_lines(e.examples@)
    } else {
        Seq::empty()
    }) + match e.dialect_notes {
        Some(n) => "\n_"@ + n@ + "_\n"@,
        None => Seq::empty(),
    }
}

fn push(out: &mut String, t: &str)
    ensures
        final(out)@ == old(out)@ + t@,
{
    out.append(t);
}

impl ReferenceEntry {
    pub fn render_markdown(&self, dialect: Dialect) -> (r: String)
        ensures
            r@ == markdown(*self, dialect),
    {
        let mut out = owned("### `");
        push(&mut out, self.name.as_str());
        push(&mut out, "` — ");
        push(&mut out, self.summary.as_str());
        push(&mut out, "\n\n");
        push(&mut out, "**Dialect:** ");
        push(&mut out, dialect.label());
        push(&mut out, "\n\n");
        push(&mut out, "```\n");
        push(&mut out, self.syntax.as_str());
        push(&mut out, "\n```\n");
        let ghost head = out@;
        if self.parameters.len() > 0 {
            push(&mut out, "\n| Parameter | Description | Units |\n");
            push(&mut out, "|-----------|-------------|-------|\n");
            let ghost start = out@;
            let mut i: usize = 0;
            while i < self.parameters.len()
                invariant
                    i <= self.parameters@.len(),
                    out@ == start + param_rows(self.parameters@.take(i as int)),
                decreases self.parameters@.len() - i,
            {
                let p = &self.parameters[i];
                push(&mut out, "| `");
                push(&mut out, p.name.as_str());
                push(&mut out, "` | ");
                let esc = escape_cells_exec(p.description.as_str());
                push(&mut out, esc.as_str());
                push(&mut out, " | ");
                match &p.units {
                    Some(u) => push(&mut out, u.as_str()),
                    None => push(&mut out, ""),
                }
                push(&mut out, " |\n");
                proof {
                    let ps = self.parameters@;
                    assert(ps.take(i + 1).drop_last() =~= ps.take(i as int));
                    assert(ps.take(i + 1).last() == ps[i as int]);
                    assert(""@ =~= Seq::<char>::empty()) by {
                        reveal_strlit("");
                    }
                    assert(out@ =~= start + param_rows(ps.take(i + 1)));
                }
                i = i + 1;
            }
            proof {
                assert(self.parameters@.take(i as int) =~= self.parameters@);
            }
        }
        let ghost with_params = out@;
        if self.examples.len() > 0 {
            push(&mut out, "\n**Examples**\n");
            let ghost start = out@;
            let mut i: usize = 0;
            while i < self.examples.len()
                invariant
                    i <= self.examples@.len(),
                    out@ == start + example_lines(self.examples@.take(i as int)),
                decreases self.examples@.len() - i,
            {
                push(&mut out, "- `");
                push(&mut out, self.examples[i].as_str());
                push(&mut out, "`\n");
                proof {
                    let es = self.examples@;
                    assert(es.take(i + 1).drop_last() =~= es.take(i as int));
                    assert(es.take(i + 1).last() == es[i as int]);
                    assert(out@ =~= start + example_lines(es.take(i + 1)));
                }
                i = i + 1;
            }
            proof {
                assert(self.examples@.take(i as int) =~= self.examples@);
            }
        }
        let ghost with_examples = out@;
        match &self.dialect_notes {
            Some(n) => {
                push(&mut out, "\n_");
                push(&mut out, n.as_str());
                push(&mut out, "_\n");
            },
            None => {},
        }
        proof {
            assert(out@ =~= markdown(*self, dialect));
        }
        out
    }
}

// ---------------------------------------------------------------------------
// The index
// ---------------------------------------------------------------------------

/// A name as looked up: trimmed; a directive (`.x`) or a longer name in ASCII
/// lowercase, a single-character element letter in ASCII uppercase.
pub open spec fn normalized(b: Seq<u8>) -> Seq<u8> {
    let t = trim_win(b, 0, b.len() as int);
    let w = b.subrange(t.0, t.1);
    if t.0 < t.1 && b[t.0] == 46u8 {
        seq![46u8] + lower_seq(b.subrange(t.0 + 1, t.1))
    } else if t.1 - t.0 == 1 {
        upper_seq(w)
    } else {
        lower_seq(w)
    }
}

/// Normalize a name for lookup.
pub fn normalize_name(name: &str) -> (r: String)
    ensures
        sb(r@) == normalized(sb(name@)),
{
    let b = name.as_bytes();
    proof {
        lemma_str_valid(name);
        is_char_boundary_start_end_of_seq(b@);
        crate::text::lemma_trim_boundaries(b@, 0, b@.len() as int);
    }
    let (lo, hi) = trim_exec(b, 0, b.len());
    let w = string_of(b, lo, hi);
    if lo < hi && b[lo] == 46 {
        let r = to_lower(w.as_str());
        proof {
            assert(lower_seq(b@.subrange(lo as int, hi as int)) =~= seq![46u8] + lower_seq(
                b@.subrange(lo + 1, hi as int),
            ));
        }
        r
    } else if hi - lo == 1 {
        to_upper(w.as_str())
    } else {
        to_lower(w.as_str())
    }
}

/// One stored entry with its key: corpus (`shared` or a dialect id), kind
/// and normalized name.
#[derive(Debug, Clone)]
pub struct ReferenceSlot {
    pub corpus: String,
    pub kind: String,
    pub key: String,
    pub entry: ReferenceEntry,
}

pub open spec fn slot_key(s: ReferenceSlot) -> (Seq<char>, Seq<char>, Seq<char>) {
    (s.corpus@, s.kind@, s.key@)
}

/// Position of the slot with key `k`, the first one if several.
pub open spec fn find_key(slots: Seq<ReferenceSlot>, i: int, k: (Seq<char>, Seq<char>, Seq<char>)) -> Option<int>
    decreases slots.len() - i,
{
    if i < 0 || i >= slots.len() {
        None
    } else if slot_key(slots[i]) == k {
        Some(i)
    } else {
        find_key(slots, i + 1, k)
    }
}

/// The key of an entry stored under `corpus`.
pub open spec fn entry_key(corpus: Seq<char>, e: ReferenceEntry) -> (Seq<char>, Seq<char>, Seq<char>) {
    (corpus, e.kind@, decode_utf8(normalized(sb(e.name@))))
}

/// Index of reference entries with shared base + dialect overlays.
pub struct ReferenceIndex {
    /// Entries in the order they were first stored; keys are unique.
    pub entries: Vec<ReferenceSlot>,
}

impl Default for ReferenceIndex {
    fn default() -> (r: Self)
        ensures
            r.entries@.len() == 0,
            unique_keys(r.entries@),
    {
        ReferenceIndex { entries: Vec::new() }
    }
}

/// The corpus key of a dialect.
pub open spec fn dialect_key(d: Dialect) -> Seq<char> {
    decode_utf8(dialect_id(d))
}

pub open spec fn kind_key(k: HoverKind) -> Seq<char> {
    match k {
        HoverKind::Directive => "directive"@,
        HoverKind::Element => "element"@,
    }
}

/// The entry found for `(dialect, kind, name)`: the dialect's own, else the
/// shared one.
pub open spec fn lookup_spec(slots: Seq<ReferenceSlot>, d: Dialect, kind: HoverKind, name: Seq<char>) -> Option<int> {
    let nk = decode_utf8(normalized(sb(name)));
    match find_key(slots, 0, (dialect_key(d), kind_key(kind), nk)) {
        Some(i) => Some(i),
        None => find_key(slots, 0, ("shared"@, kind_key(kind), nk)),
    }
}

fn dialect_key_exec(d: Dialect) -> (r: String)
    ensures
        r@ == dialect_key(d),
{
    let r = owned(d.id());
    proof {
        encode_utf8_decode_utf8(r@);
    }
    r
}

/// The slots after storing `entry` under `corpus`: the slot with the same
/// key takes the entry in place, else a new slot is appended.
pub open spec fn inserted(
    before: Seq<ReferenceSlot>,
    after: Seq<ReferenceSlot>,
    corpus: Seq<char>,
    entry: ReferenceEntry,
) -> bool {
    let k = entry_key(corpus, entry);
    match find_key(before, 0, k) {
        Some(i) => after.len() == before.len() && forall|j: int|
            0 <= j < after.len() ==> if j == i {
                slot_key(#[trigger] after[j]) == k && after[j].entry == entry
            } else {
                after[j] == before[j]
            },
        None => after.len() == before.len() + 1 && after.drop_last() == before && slot_key(
            after.last(),
        ) == k && after.last().entry == entry,
    }
}

/// No two slots share a key.
pub open spec fn unique_keys(slots: Seq<ReferenceSlot>) -> bool {
    forall|i: int, j: int|
        0 <= i < j < slots.len() ==> slot_key(#[trigger] slots[i]) != slot_key(#[trigger] slots[j])
}

proof fn lemma_find_key(slots: Seq<ReferenceSlot>, a: int, k: (Seq<char>, Seq<char>, Seq<char>))
    requires
        0 <= a,
    ensures
        match find_key(slots, a, k) {
            Some(i) => a <= i < slots.len() && slot_key(slots[i]) == k && forall|j: int|
                a <= j < i ==> slot_key(#[trigger] slots[j]) != k,
            None => forall|j: int| a <= j < slots.len() ==> slot_key(#[trigger] slots[j]) != k,
        },
    decreases slots.len() - a,
{
    if a < slots.len() && slot_key(slots[a]) != k {
        lemma_find_key(slots, a + 1, k);
    }
}

proof fn lemma_find_key_at(slots: Seq<ReferenceSlot>, a: int, i: int, k: (Seq<char>, Seq<char>, Seq<char>))
    requires
        0 <= a <= i < slots.len(),
        slot_key(slots[i]) == k,
        forall|j: int| a <= j < i ==> slot_key(#[trigger] slots[j]) != k,
    ensures
        find_key(slots, a, k) == Some(i),
    decreases i - a,
{
    if a < i {
        lemma_find_key_at(slots, a + 1, i, k);
    }
}

proof fn lemma_inserted_found(
    before: Seq<ReferenceSlot>,
    after: Seq<ReferenceSlot>,
    corpus: Seq<char>,
    entry: ReferenceEntry,
) -> (i: int)
    requires
        inserted(before, after, corpus, entry),
    ensures
        find_key(after, 0, entry_key(corpus, entry)) == Some(i),
        0 <= i < after.len(),
        after[i].entry == entry,
{
    let k = entry_key(corpus, entry);
    lemma_find_key(before, 0, k);
    match find_key(before, 0, k) {
        Some(i) => {
            assert(slot_key(after[i]) == k);
            assert forall|j: int| 0 <= j < i implies slot_key(#[trigger] after[j]) != k by {
                assert(after[j] == before[j]);
            }
            lemma_find_key_at(after, 0, i, k);
            i
        },
        None => {
            let i = before.len() as int;
            assert(after[i] == after.last());
            assert forall|j: int| 0 <= j < i implies slot_key(#[trigger] after[j]) != k by {
                assert(after[j] == after.drop_last()[j]);
            }
            lemma_find_key_at(after, 0, i, k);
            i
        },
    }
}

/// Read after write: once `entry` is stored under a dialect's corpus, a
/// lookup of its kind and name for that dialect gives it back.
pub proof fn law_lookup_after_insert(
    before: Seq<ReferenceSlot>,
    after: Seq<ReferenceSlot>,
    d: Dialect,
    kind: HoverKind,
    entry: ReferenceEntry,
)
    requires
        inserted(before, after, dialect_key(d), entry),
        entry.kind@ == kind_key(kind),
    ensures
        lookup_spec(after, d, kind, entry.name@) matches Some(i) && after[i].entry == entry,
{
    let i = lemma_inserted_found(before, after, dialect_key(d), entry);
}

/// A shared entry is what a dialect gets for its kind and name as long as
/// the dialect has no entry of its own with that key.
pub proof fn law_shared_fallback(
    before: Seq<ReferenceSlot>,
    after: Seq<ReferenceSlot>,
    d: Dialect,
    kind: HoverKind,
    entry: ReferenceEntry,
)
    requires
        inserted(before, after, "shared"@, entry),
        entry.kind@ == kind_key(kind),
        find_key(after, 0, entry_key(dialect_key(d), entry)) is None,
    ensures
        lookup_spec(after, d, kind, entry.name@) matches Some(i) && after[i].entry == entry,
{
    let i = lemma_inserted_found(before, after, "shared"@, entry);
}

/// Storing an entry never makes two slots share a key.
pub proof fn law_insert_keeps_keys_unique(
    before: Seq<ReferenceSlot>,
    after: Seq<ReferenceSlot>,
    corpus: Seq<char>,
    entry: ReferenceEntry,
)
    requires
        unique_keys(before),
        inserted(before, after, corpus, entry),
    ensures
        unique_keys(after),
{
    let k = entry_key(corpus, entry);
    lemma_find_key(before, 0, k);
    match find_key(before, 0, k) {
        Some(p) => {
            assert forall|i: int, j: int|
                0 <= i < j < after.len() implies slot_key(#[trigger] after[i]) != slot_key(
                #[trigger] after[j],
            ) by {
                if i != p {
                    assert(after[i] == before[i]);
                }
                if j != p {
                    assert(after[j] == before[j]);
                }
                if i == p {
                    assert(slot_key(before[p]) == k);
                    assert(slot_key(before[i]) != slot_key(before[j]));
                } else if j == p {
                    assert(slot_key(before[p]) == k);
                    assert(slot_key(before[i]) != slot_key(before[j]));
                }
            }
        },
        None => {
            assert forall|i: int, j: int|
                0 <= i < j < after.len() implies slot_key(#[trigger] after[i]) != slot_key(
                #[trigger] after[j],
            ) by {
                assert(after[i] == after.drop_last()[i]);
                if j < before.len() {
                    assert(after[j] == after.drop_last()[j]);
                } else {
                    assert(after[j] == after.last());
                }
            }
        },
    }
}

impl ReferenceIndex {
    fn position(&self, corpus: &String, kind: &String, key: &String) -> (r: Option<usize>)
        ensures
            match (r, find_key(self.entries@, 0, (corpus@, kind@, key@))) {
                (Some(i), Some(j)) => i == j && i < self.entries@.len(),
                (None, None) => true,
                _ => false,
            },
    {
        let mut i: usize = 0;
        while i < self.entries.len()
            invariant
                i <= self.entries@.len(),
                find_key(self.entries@, i as int, (corpus@, kind@, key@)) == find_key(
                    self.entries@,
                    0,
                    (corpus@, kind@, key@),
                ),
            decreases self.entries@.len() - i,
        {
            let s = &self.entries[i];
            if s.corpus == *corpus && s.kind == *kind && s.key == *key {
                return Some(i);
            }
            i = i + 1;
        }
        None
    }

    /// Store `entry` under `corpus`; an entry with the same key is replaced.
    pub fn insert(&mut self, corpus: &str, entry: ReferenceEntry)
        ensures
            inserted(old(self).entries@, final(self).entries@, corpus@, entry),
            unique_keys(old(self).entries@) ==> unique_keys(final(self).entries@),
    {
        let c = owned(corpus);
        let kind = entry.kind.clone();
        let key = normalize_name(entry.name.as_str());
        proof {
            encode_utf8_decode_utf8(key@);
        }
        match self.position(&c, &kind, &key) {
            Some(i) => {
                let ghost before = self.entries@;
                self.entries.set(i, ReferenceSlot { corpus: c, kind, key, entry });
                proof {
                    if unique_keys(before) {
                        law_insert_keeps_keys_unique(before, self.entries@, corpus@, entry);
                    }
                }
            },
            None => {
                let ghost before = self.entries@;
                self.entries.push(ReferenceSlot { corpus: c, kind, key, entry });
                proof {
                    assert(self.entries@.drop_last() =~= before);
                    if unique_keys(before) {
                        law_insert_keeps_keys_unique(before, self.entries@, corpus@, entry);
                    }
                }
            },
        }
    }

    pub fn lookup(&self, dialect: Dialect, kind: HoverKind, name: &str) -> (r: Option<&ReferenceEntry>)
        ensures
            match (r, lookup_spec(self.entries@, dialect, kind, name@)) {
                (Some(e), Some(i)) => *e == self.entries@[i].entry,
                (None, None) => true,
                _ => false,
            },
    {
        let kind_str = match kind {
            HoverKind::Directive => owned("directive"),
            HoverKind::Element => owned("element"),
        };
        let name_key = normalize_name(name);
        proof {
            encode_utf8_decode_utf8(name_key@);
        }
        let dk = dialect_key_exec(dialect);
        match self.position(&dk, &kind_str, &name_key) {
            Some(i) => Some(&self.entries[i].entry),
            None => {
                let shared = owned("shared");
                match self.position(&shared, &kind_str, &name_key) {
                    Some(i) => Some(&self.entries[i].entry),
                    None => None,
                }
            },
        }
    }

    pub fn lookup_token(&self, dialect: Dialect, token: &HoverToken) -> (r: Option<&ReferenceEntry>)
        ensures
            match (r, lookup_spec(self.entries@, dialect, token.kind, token.name@)) {
                (Some(e), Some(i)) => *e == self.entries@[i].entry,
                (None, None) => true,
                _ => false,
            },
    {
        self.lookup(dialect, token.kind, token.name.as_str())
    }

    pub fn len(&self) -> (r: usize)
        ensures
            r == self.entries@.len(),
    {
        self.entries.len()
    }

    pub fn is_empty(&self) -> (r: bool)
        ensures
            r == (self.entries@.len() == 0),
    {
        self.entries.len() == 0
    }

    /// All entries as `(corpus_key, kind, entry)`, in storage order.
    pub fn iter_raw(&self) -> (r: Vec<(&str, &str, &ReferenceEntry)>)
        ensures
            r@.len() == self.entries@.len(),
            forall|i: int|
                0 <= i < r@.len() ==> (#[trigger] r@[i]).0@ == self.entries@[i].corpus@ && r@[i].1@
                    == self.entries@[i].kind@ && *r@[i].2 == self.entries@[i].entry,
    {
        let mut out: Vec<(&str, &str, &ReferenceEntry)> = Vec::new();
        let mut i: usize = 0;
        while i < self.entries.len()
            invariant
                i <= self.entries@.len(),
                out@.len() == i,
                forall|j: int|
                    0 <= j < i ==> (#[trigger] out@[j]).0@ == self.entries@[j].corpus@ && out@[j].1@
                        == self.entries@[j].kind@ && *out@[j].2 == self.entries@[j].entry,
            decreases self.entries@.len() - i,
        {
            let s = &self.entries[i];
            out.push((s.corpus.as_str(), s.kind.as_str(), &s.entry));
            i = i + 1;
        }
        out
    }
}

// ---------------------------------------------------------------------------
// Catalog listings
// ---------------------------------------------------------------------------

/// Byte-wise lexicographic order of strings (`str::cmp` is `Less`).
pub open spec fn lex_lt(a: Seq<u8>, b: Seq<u8>) -> bool
    decreases a.len(),
{
    if a.len() == 0 {
        b.len() > 0
    } else if b.len() == 0 {
        false
    } else if a[0] != b[0] {
        a[0] < b[0]
    } else {
        lex_lt(a.drop_first(), b.drop_first())
    }
}

fn bytes_lt(a: &[u8], b: &[u8]) -> (r: bool)
    ensures
        r == lex_lt(a@, b@),
{
    let mut i: usize = 0;
    proof {
        assert(a@.skip(0) =~= a@);
        assert(b@.skip(0) =~= b@);
    }
    while i < a.len() && i < b.len()
        invariant
            i <= a@.len(),
            i <= b@.len(),
            lex_lt(a@.skip(i as int), b@.skip(i as int)) == lex_lt(a@, b@),
        decreases a@.len() - i,
    {
        proof {
            assert(a@.skip(i as int)[0] == a@[i as int]);
            assert(b@.skip(i as int)[0] == b@[i as int]);
            assert(a@.skip(i as int).drop_first() =~= a@.skip(i + 1));
            assert(b@.skip(i as int).drop_first() =~= b@.skip(i + 1));
        }
        if a[i] != b[i] {
            return a[i] < b[i];
        }
        i = i + 1;
    }
    proof {
        assert(a@.skip(i as int).len() == a@.len() - i);
        assert(b@.skip(i as int).len() == b@.len() - i);
    }
    i == a.len() && i < b.len()
}

/// Catalog order of two entries: by kind, then by lowercased name, then (for
/// the effective listing) by id.
pub open spec fn entry_lt(x: ReferenceEntry, y: ReferenceEntry, by_id: bool) -> bool {
    let (kx, ky) = (sb(x.kind@), sb(y.kind@));
    let (nx, ny) = (lower_seq(sb(x.name@)), lower_seq(sb(y.name@)));
    ||| lex_lt(kx, ky)
    ||| (kx == ky && lex_lt(nx, ny))
    ||| (kx == ky && nx == ny && by_id && lex_lt(sb(x.id@), sb(y.id@)))
}

/// Insert `x` after every element it does not precede.
pub open spec fn ins_sorted<T>(s: Seq<T>, x: T, lt: spec_fn(T, T) -> bool) -> Seq<T>
    decreases s.len(),
{
    if s.len() == 0 {
        seq![x]
    } else if !lt(x, s.last()) {
        s.push(x)
    } else {
        ins_sorted(s.drop_last(), x, lt).push(s.last())
    }
}

/// Stable sort by `lt`.
pub open spec fn isort<T>(s: Seq<T>, lt: spec_fn(T, T) -> bool) -> Seq<T>
    decreases s.len(),
{
    if s.len() == 0 {
        s
    } else {
        ins_sorted(isort(s.drop_last(), lt), s.last(), lt)
    }
}

proof fn lemma_ins_at<T>(s: Seq<T>, x: T, lt: spec_fn(T, T) -> bool, j: int)
    requires
        0 <= j <= s.len(),
        forall|k: int| j <= k < s.len() ==> lt(x, #[trigger] s[k]),
        j > 0 ==> !lt(x, s[j - 1]),
    ensures
        ins_sorted(s, x, lt) == s.insert(j, x),
    decreases s.len(),
{
    if s.len() == 0 {
        assert(s.insert(j, x) =~= seq![x]);
    } else if j == s.len() {
        assert(s.insert(j, x) =~= s.push(x));
    } else {
        assert(lt(x, s[s.len() - 1]));
        lemma_ins_at(s.drop_last(), x, lt, j);
        assert(s.drop_last().insert(j, x).push(s.last()) =~= s.insert(j, x));
    }
}

/// Two stored entries share kind and normalized name.
pub open spec fn same_kind_key(a: ReferenceSlot, b: ReferenceSlot) -> bool {
    a.kind@ == b.kind@ && a.key@ == b.key@
}

/// Position in `acc` (from `p` on) of a selected entry with the same kind and
/// name as slot `j`.
pub open spec fn find_same(slots: Seq<ReferenceSlot>, acc: Seq<(bool, usize)>, j: int, p: int) -> Option<int>
    decreases acc.len() - p,
{
    if p < 0 || p >= acc.len() {
        None
    } else if same_kind_key(slots[acc[p].1 as int], slots[j]) {
        Some(p)
    } else {
        find_same(slots, acc, j, p + 1)
    }
}

/// Select slot `j` (marked `flag`), replacing a selected entry with the same
/// kind and name.
pub open spec fn select(slots: Seq<ReferenceSlot>, acc: Seq<(bool, usize)>, j: int, flag: bool) -> Seq<(bool, usize)> {
    match find_same(slots, acc, j, 0) {
        Some(p) => acc.update(p, (flag, j as usize)),
        None => acc.push((flag, j as usize)),
    }
}

/// Select the entries of `corpus` among the first `n` slots.
pub open spec fn select_corpus(
    slots: Seq<ReferenceSlot>,
    corpus: Seq<char>,
    flag: bool,
    acc: Seq<(bool, usize)>,
    n: int,
) -> Seq<(bool, usize)>
    decreases n,
{
    if n <= 0 {
        acc
    } else {
        let r = select_corpus(slots, corpus, flag, acc, n - 1);
        if slots[n - 1].corpus@ == corpus {
            select(slots, r, n - 1, flag)
        } else {
            r
        }
    }
}

/// Shared entries overlaid by the dialect's own (marked `true`), one per kind
/// and name, in catalog order.
pub open spec fn effective_spec(slots: Seq<ReferenceSlot>, d: Dialect) -> Seq<(bool, usize)> {
    let shared = select_corpus(slots, "shared"@, false, seq![], slots.len() as int);
    let all = select_corpus(slots, dialect_key(d), true, shared, slots.len() as int);
    isort(all, |a: (bool, usize), b: (bool, usize)| entry_lt(slots[a.1 as int].entry, slots[b.1 as int].entry, true))
}

/// The shared entries, in catalog order (kind, then lowercased name).
pub open spec fn shared_spec(slots: Seq<ReferenceSlot>) -> Seq<(bool, usize)> {
    let shared = select_corpus(slots, "shared"@, false, seq![], slots.len() as int);
    isort(shared, |a: (bool, usize), b: (bool, usize)| entry_lt(slots[a.1 as int].entry, slots[b.1 as int].entry, false))
}

impl ReferenceIndex {
    fn entry_less(&self, a: usize, b: usize, by_id: bool) -> (r: bool)
        requires
            a < self.entries@.len(),
            b < self.entries@.len(),
        ensures
            r == entry_lt(self.entries@[a as int].entry, self.entries@[b as int].entry, by_id),
    {
        let x = &self.entries[a].entry;
        let y = &self.entries[b].entry;
        let kx = x.kind.as_str().as_bytes();
        let ky = y.kind.as_str().as_bytes();
        if bytes_lt(kx, ky) {
            return true;
        }
        if !crate::text::bytes_eq(kx, ky) {
            return false;
        }
        let nx = to_lower(x.name.as_str());
        let ny = to_lower(y.name.as_str());
        let bx = nx.as_str().as_bytes();
        let by = ny.as_str().as_bytes();
        if bytes_lt(bx, by) {
            return true;
        }
        if !crate::text::bytes_eq(bx, by) || !by_id {
            return false;
        }
        bytes_lt(x.id.as_str().as_bytes(), y.id.as_str().as_bytes())
    }

    fn select_exec(&self, acc: &mut Vec<(bool, usize)>, j: usize, flag: bool)
        requires
            j < self.entries@.len(),
            forall|k: int| 0 <= k < old(acc)@.len() ==> (#[trigger] old(acc)@[k]).1 < self.entries@.len(),
        ensures
            final(acc)@ == select(self.entries@, old(acc)@, j as int, flag),
            forall|k: int| 0 <= k < final(acc)@.len() ==> (#[trigger] final(acc)@[k]).1 < self.entries@.len(),
    {
        let mut p: usize = 0;
        while p < acc.len()
            invariant
                p <= acc@.len(),
                acc@ == old(acc)@,
                j < self.entries@.len(),
                forall|k: int| 0 <= k < acc@.len() ==> (#[trigger] acc@[k]).1 < self.entries@.len(),
                find_same(self.entries@, acc@, j as int, p as int) == find_same(
                    self.entries@,
                    acc@,
                    j as int,
                    0,
                ),
            decreases acc@.len() - p,
        {
            let q = acc[p].1;
            let s = &self.entries[q];
            let t = &self.entries[j];
            if s.kind == t.kind && s.key == t.key {
                acc.set(p, (flag, j));
                return;
            }
            p = p + 1;
        }
        acc.push((flag, j));
    }

    fn select_corpus_exec(&self, corpus: &String, flag: bool, acc: &mut Vec<(bool, usize)>)
        requires
            forall|k: int| 0 <= k < old(acc)@.len() ==> (#[trigger] old(acc)@[k]).1 < self.entries@.len(),
        ensures
            final(acc)@ == select_corpus(self.entries@, corpus@, flag, old(acc)@, self.entries@.len() as int),
            forall|k: int| 0 <= k < final(acc)@.len() ==> (#[trigger] final(acc)@[k]).1 < self.entries@.len(),
    {
        let ghost start = acc@;
        let mut n: usize = 0;
        while n < self.entries.len()
            invariant
                n <= self.entries@.len(),
                acc@ == select_corpus(self.entries@, corpus@, flag, start, n as int),
                forall|k: int| 0 <= k < acc@.len() ==> (#[trigger] acc@[k]).1 < self.entries@.len(),
            decreases self.entries@.len() - n,
        {
            if self.entries[n].corpus == *corpus {
                self.select_exec(acc, n, flag);
            }
            n = n + 1;
        }
    }

    fn sort_selected(&self, sel: &Vec<(bool, usize)>, by_id: bool) -> (r: Vec<(bool, usize)>)
        requires
            forall|k: int| 0 <= k < sel@.len() ==> (#[trigger] sel@[k]).1 < self.entries@.len(),
        ensures
            r@ == isort(
                sel@,
                |a: (bool, usize), b: (bool, usize)|
                    entry_lt(self.entries@[a.1 as int].entry, self.entries@[b.1 as int].entry, by_id),
            ),
            forall|k: int| 0 <= k < r@.len() ==> (#[trigger] r@[k]).1 < self.entries@.len(),
    {
        let ghost lt = |a: (bool, usize), b: (bool, usize)|
            entry_lt(self.entries@[a.1 as int].entry, self.entries@[b.1 as int].entry, by_id);
        let mut out: Vec<(bool, usize)> = Vec::new();
        let mut i: usize = 0;
        while i < sel.len()
            invariant
                i <= sel@.len(),
                forall|k: int| 0 <= k < sel@.len() ==> (#[trigger] sel@[k]).1 < self.entries@.len(),
                lt == (|a: (bool, usize), b: (bool, usize)|
                    entry_lt(self.entries@[a.1 as int].entry, self.entries@[b.1 as int].entry, by_id)),
                out@ == isort(sel@.take(i as int), lt),
                forall|k: int| 0 <= k < out@.len() ==> (#[trigger] out@[k]).1 < self.entries@.len(),
            decreases sel@.len() - i,
        {
            let x = sel[i];
            let mut j: usize = out.len();
            let mut go = j > 0;
            while go
                invariant
                    j <= out@.len(),
                    go ==> j > 0,
                    x.1 < self.entries@.len(),
                    forall|k: int| 0 <= k < out@.len() ==> (#[trigger] out@[k]).1 < self.entries@.len(),
                    forall|k: int| j <= k < out@.len() ==> lt(x, #[trigger] out@[k]),
                    !go ==> (j > 0 ==> !lt(x, out@[j - 1])),
                    lt == (|a: (bool, usize), b: (bool, usize)|
                        entry_lt(self.entries@[a.1 as int].entry, self.entries@[b.1 as int].entry, by_id)),
                decreases j + (if go { 1int } else { 0int }),
            {
                if self.entry_less(x.1, out[j - 1].1, by_id) {
                    j = j - 1;
                    go = j > 0;
                } else {
                    go = false;
                }
            }
            proof {
                lemma_ins_at(out@, x, lt, j as int);
                assert(sel@.take(i + 1).drop_last() =~= sel@.take(i as int));
                assert(sel@.take(i + 1).last() == x);
            }
            out.insert(j, x);
            proof {
                assert forall|k: int| 0 <= k < out@.len() implies (#[trigger] out@[k]).1 < self.entries@.len() by {
                    if k < j {
                    } else if k == j {
                    } else {
                        assert(out@[k] == out@.remove(j as int)[k - 1]);
                    }
                }
            }
            i = i + 1;
        }
        proof {
            assert(sel@.take(i as int) =~= sel@);
        }
        out
    }

    /// Effective entries for a dialect: shared base overlaid by dialect-specific
    /// entries (dialect wins on normalized name + kind), in catalog order; the
    /// flag marks dialect-specific entries.
    pub fn effective_entries(&self, dialect: Dialect) -> (r: Vec<(bool, &ReferenceEntry)>)
        ensures
            r@.len() == effective_spec(self.entries@, dialect).len(),
            forall|k: int|
                0 <= k < r@.len() ==> (#[trigger] r@[k]).0 == effective_spec(self.entries@, dialect)[k].0
                    && *r@[k].1 == self.entries@[effective_spec(self.entries@, dialect)[k].1 as int].entry,
    {
        let mut acc: Vec<(bool, usize)> = Vec::new();
        let shared = owned("shared");
        self.select_corpus_exec(&shared, false, &mut acc);
        let dk = dialect_key_exec(dialect);
        self.select_corpus_exec(&dk, true, &mut acc);
        let sorted = self.sort_selected(&acc, true);
        self.refs_of(&sorted)
    }

    /// Entries that live in the shared corpus, in catalog order.
    pub fn shared_entries(&self) -> (r: Vec<&ReferenceEntry>)
        ensures
            r@.len() == shared_spec(self.entries@).len(),
            forall|k: int|
                0 <= k < r@.len() ==> *(#[trigger] r@[k]) == self.entries@[shared_spec(self.entries@)[k].1 as int].entry,
    {
        let mut acc: Vec<(bool, usize)> = Vec::new();
        let shared = owned("shared");
        self.select_corpus_exec(&shared, false, &mut acc);
        let sorted = self.sort_selected(&acc, false);
        let mut out: Vec<&ReferenceEntry> = Vec::new();
        let mut i: usize = 0;
        while i < sorted.len()
            invariant
                i <= sorted@.len(),
                forall|k: int| 0 <= k < sorted@.len() ==> (#[trigger] sorted@[k]).1 < self.entries@.len(),
                out@.len() == i,
                forall|k: int| 0 <= k < i ==> *(#[trigger] out@[k]) == self.entries@[sorted@[k].1 as int].entry,
            decreases sorted@.len() - i,
        {
            out.push(&self.entries[sorted[i].1].entry);
            i = i + 1;
        }
        out
    }

    fn refs_of(&self, sel: &Vec<(bool, usize)>) -> (r: Vec<(bool, &ReferenceEntry)>)
        requires
            forall|k: int| 0 <= k < sel@.len() ==> (#[trigger] sel@[k]).1 < self.entries@.len(),
        ensures
            r@.len() == sel@.len(),
            forall|k: int|
                0 <= k < r@.len() ==> (#[trigger] r@[k]).0 == sel@[k].0 && *r@[k].1
                    == self.entries@[sel@[k].1 as int].entry,
    {
        let mut out: Vec<(bool, &ReferenceEntry)> = Vec::new();
        let mut i: usize = 0;
        while i < sel.len()
            invariant
                i <= sel@.len(),
                forall|k: int| 0 <= k < sel@.len() ==> (#[trigger] sel@[k]).1 < self.entries@.len(),
                out@.len() == i,
                forall|k: int|
                    0 <= k < i ==> (#[trigger] out@[k]).0 == sel@[k].0 && *out@[k].1
                        == self.entries@[sel@[k].1 as int].entry,
            decreases sel@.len() - i,
        {
            out.push((sel[i].0, &self.entries[sel[i].1].entry));
            i = i + 1;
        }
        out
    }
}

} // verus!
