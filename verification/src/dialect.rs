//! SPICE dialect identifiers and syntax/semantics profiles.
use vstd::prelude::*;

use crate::text::{eq_lower, lemma_ascii_sb, lemma_lower_word, lower_seq, sb, trim_exec, trim_win};

verus! {

/// Supported SPICE dialects.
#[derive(Debug, Clone, Copy, PartialEq, Eq, Hash, Structural)]
pub enum Dialect {
    Hspice,
    Ngspice,
    Ltspice,
}

pub open spec fn word_hspice() -> Seq<u8> {
    seq![104u8, 115u8, 112u8, 105u8, 99u8, 101u8]
}

pub open spec fn word_ngspice() -> Seq<u8> {
    seq![110u8, 103u8, 115u8, 112u8, 105u8, 99u8, 101u8]
}

pub open spec fn word_ltspice() -> Seq<u8> {
    seq![108u8, 116u8, 115u8, 112u8, 105u8, 99u8, 101u8]
}

/// The lowercase identifier of a dialect.
pub open spec fn dialect_id(d: Dialect) -> Seq<u8> {
    match d {
        Dialect::Hspice => word_hspice(),
        Dialect::Ngspice => word_ngspice(),
        Dialect::Ltspice => word_ltspice(),
    }
}

/// The dialect named by a setting (trimmed, case-insensitive), if any.
pub open spec fn dialect_of_setting(raw: Seq<u8>) -> Option<Dialect> {
    let w = trim_win(raw, 0, raw.len() as int);
    let k = lower_seq(raw.subrange(w.0, w.1));
    if k == word_hspice() {
        Some(Dialect::Hspice)
    } else if k == word_ngspice() {
        Some(Dialect::Ngspice)
    } else if k == word_ltspice() {
        Some(Dialect::Ltspice)
    } else {
        None
    }
}

impl Default for Dialect {
    fn default() -> (d: Self)
        ensures
            d == Dialect::Hspice,
    {
        Dialect::Hspice
    }
}

/// Recognise a dialect name.
fn parse_dialect(value: &str) -> (r: Option<Dialect>)
    ensures
        r == dialect_of_setting(sb(value@)),
{
    let b = value.as_bytes();
    let (lo, hi) = trim_exec(b, 0, b.len());
    let w_hspice: [u8; 6] = [104, 115, 112, 105, 99, 101];
    let w_ngspice: [u8; 7] = [110, 103, 115, 112, 105, 99, 101];
    let w_ltspice: [u8; 7] = [108, 116, 115, 112, 105, 99, 101];
    assert(w_hspice@ == word_hspice());
    assert(w_ngspice@ == word_ngspice());
    assert(w_ltspice@ == word_ltspice());
    if eq_lower(b, lo, hi, &w_hspice) {
        Some(Dialect::Hspice)
    } else if eq_lower(b, lo, hi, &w_ngspice) {
        Some(Dialect::Ngspice)
    } else if eq_lower(b, lo, hi, &w_ltspice) {
        Some(Dialect::Ltspice)
    } else {
        None
    }
}

impl Dialect {
    /// All dialects, in declaration order.
    pub const ALL: [Dialect; 3] = [Dialect::Hspice, Dialect::Ngspice, Dialect::Ltspice];

    /// The lowercase identifier used in settings.
    pub fn id(self) -> (r: &'static str)
        ensures
            sb(r@) == dialect_id(self),
    {
        match self {
            Dialect::Hspice => {
                proof {
                    reveal_strlit("hspice");
                    lemma_ascii_sb("hspice"@);
                }
                "hspice"
            },
            Dialect::Ngspice => {
                proof {
                    reveal_strlit("ngspice");
                    lemma_ascii_sb("ngspice"@);
                }
                "ngspice"
            },
            Dialect::Ltspice => {
                proof {
                    reveal_strlit("ltspice");
                    lemma_ascii_sb("ltspice"@);
                }
                "ltspice"
            },
        }
    }

    /// The display name of the dialect.
    pub fn label(self) -> (r: &'static str)
        ensures
            r@ == (match self {
                Dialect::Hspice => "HSPICE"@,
                Dialect::Ngspice => "Ngspice"@,
                Dialect::Ltspice => "LTspice"@,
            }),
    {
        match self {
            Dialect::Hspice => "HSPICE",
            Dialect::Ngspice => "Ngspice",
            Dialect::Ltspice => "LTspice",
        }
    }

    /// The syntax profile of the dialect.
    pub fn profile(self) -> (p: DialectProfile)
        ensures
            p.dialect == self,
            p.line_comment_prefixes@.len() == comment_prefixes(self).len(),
            forall|i: int|
                0 <= i < p.line_comment_prefixes@.len() ==> (#[trigger] p.line_comment_prefixes@[i])@
                    == comment_prefixes(self)[i],
    {
        DialectProfile::for_dialect(self)
    }

    /// Parse a dialect id; unknown values fall back to HSPICE. The flag is
    /// `true` when the fallback was taken.
    pub fn parse_or_default(value: &str) -> (r: (Dialect, bool))
        ensures
            r == (match dialect_of_setting(sb(value@)) {
                Some(d) => (d, false),
                None => (Dialect::Hspice, true),
            }),
    {
        match parse_dialect(value) {
            Some(d) => (d, false),
            None => (Dialect::Hspice, true),
        }
    }
}

impl std::str::FromStr for Dialect {
    type Err = ();

    fn from_str(s: &str) -> (r: Result<Self, Self::Err>)
        ensures
            r == (match dialect_of_setting(sb(s@)) {
                Some(d) => Ok::<Dialect, ()>(d),
                None => Err(()),
            }),
    {
        match parse_dialect(s) {
            Some(d) => Ok(d),
            None => Err(()),
        }
    }
}

/// Line-comment prefixes recognised by each dialect.
pub open spec fn comment_prefixes(d: Dialect) -> Seq<Seq<char>> {
    match d {
        Dialect::Hspice => seq!["*"@],
        Dialect::Ngspice => seq!["*"@, ";"@, "$"@],
        Dialect::Ltspice => seq!["*"@, "$"@],
    }
}

/// Syntax / semantics knobs that differ by dialect.
#[derive(Debug, Clone, Copy, PartialEq, Eq)]
pub struct DialectProfile {
    pub dialect: Dialect,
    /// Line-comment prefixes recognized for documentation / future toggle.
    pub line_comment_prefixes: &'static [&'static str],
}

impl DialectProfile {
    pub fn for_dialect(dialect: Dialect) -> (p: Self)
        ensures
            p.dialect == dialect,
            p.line_comment_prefixes@.len() == comment_prefixes(dialect).len(),
            forall|i: int|
                0 <= i < p.line_comment_prefixes@.len() ==> (#[trigger] p.line_comment_prefixes@[i])@
                    == comment_prefixes(dialect)[i],
    {
        match dialect {
            Dialect::Hspice => {
                let p: &'static [&'static str] = &["*"];
                DialectProfile { dialect, line_comment_prefixes: p }
            },
            Dialect::Ngspice => {
                let p: &'static [&'static str] = &["*", ";", "$"];
                DialectProfile { dialect, line_comment_prefixes: p }
            },
            Dialect::Ltspice => {
                let p: &'static [&'static str] = &["*", "$"];
                DialectProfile { dialect, line_comment_prefixes: p }
            },
        }
    }
}

/// Parsing a dialect's own identifier gives that dialect, without fallback.
pub proof fn law_dialect_id_roundtrip(d: Dialect)
    ensures
        dialect_of_setting(dialect_id(d)) == Some(d),
{
    let raw = dialect_id(d);
    lemma_lower_word(raw);
    assert(raw.subrange(0, raw.len() as int) =~= raw);
}

} // verus!
