//! Analysis profiles for schematic-scale vs large extracted netlists.
use vstd::prelude::*;

use crate::text::{eq_lower, lemma_str_valid, lower_seq, sb, trim_exec, trim_win};

verus! {

/// How the server chooses between full and extracted analysis.
#[derive(Debug, Clone, Copy, PartialEq, Eq, Structural)]
pub enum AnalysisMode {
    /// Use [`AnalysisProfile::Extracted`] when the buffer reaches the size threshold.
    Auto,
    /// Always index instances, outline children, and duplicate-name checks.
    Full,
    /// Definitions-only indexing (see [`AnalysisProfile::Extracted`]).
    Extracted,
}

pub open spec fn word_auto() -> Seq<u8> {
    seq![97u8, 117u8, 116u8, 111u8]
}

pub open spec fn word_full() -> Seq<u8> {
    seq![102u8, 117u8, 108u8, 108u8]
}

pub open spec fn word_extracted() -> Seq<u8> {
    seq![101u8, 120u8, 116u8, 114u8, 97u8, 99u8, 116u8, 101u8, 100u8]
}

/// The trimmed, ASCII-lowercased bytes of a setting string.
pub open spec fn setting_key(raw: Seq<u8>) -> Seq<u8> {
    let w = trim_win(raw, 0, raw.len() as int);
    lower_seq(raw.subrange(w.0, w.1))
}

/// `parse_or_default` on a setting: the mode it names and whether it was recognised.
pub open spec fn mode_of_setting(raw: Seq<u8>) -> (AnalysisMode, bool) {
    let k = setting_key(raw);
    if k == word_auto() {
        (AnalysisMode::Auto, true)
    } else if k == word_full() {
        (AnalysisMode::Full, true)
    } else if k == word_extracted() {
        (AnalysisMode::Extracted, true)
    } else {
        (AnalysisMode::Auto, false)
    }
}

pub open spec fn mode_id(m: AnalysisMode) -> Seq<u8> {
    match m {
        AnalysisMode::Auto => word_auto(),
        AnalysisMode::Full => word_full(),
        AnalysisMode::Extracted => word_extracted(),
    }
}

impl Default for AnalysisMode {
    fn default() -> (m: Self)
        ensures
            m == AnalysisMode::Auto,
    {
        AnalysisMode::Auto
    }
}

impl AnalysisMode {
    /// Parse a settings string (`auto` / `full` / `extracted`, trimmed and
    /// case-insensitive). Unknown values give `Auto` and `false`.
    pub fn parse_or_default(raw: &str) -> (r: (Self, bool))
        ensures
            r == mode_of_setting(sb(raw@)),
    {
        let b = raw.as_bytes();
        let (lo, hi) = trim_exec(b, 0, b.len());
        let w_auto: [u8; 4] = [97, 117, 116, 111];
        let w_full: [u8; 4] = [102, 117, 108, 108];
        let w_extracted: [u8; 9] = [101, 120, 116, 114, 97, 99, 116, 101, 100];
        assert(w_auto@ == word_auto());
        assert(w_full@ == word_full());
        assert(w_extracted@ == word_extracted());
        if eq_lower(b, lo, hi, &w_auto) {
            (AnalysisMode::Auto, true)
        } else if eq_lower(b, lo, hi, &w_full) {
            (AnalysisMode::Full, true)
        } else if eq_lower(b, lo, hi, &w_extracted) {
            (AnalysisMode::Extracted, true)
        } else {
            (AnalysisMode::Auto, false)
        }
    }

    /// The settings identifier of the mode.
    pub fn id(self) -> (r: &'static str)
        ensures
            sb(r@) == mode_id(self),
    {
        match self {
            AnalysisMode::Auto => {
                proof {
                    reveal_strlit("auto");
                    crate::text::lemma_ascii_sb("auto"@);
                }
                "auto"
            },
            AnalysisMode::Full => {
                proof {
                    reveal_strlit("full");
                    crate::text::lemma_ascii_sb("full"@);
                }
                "full"
            },
            AnalysisMode::Extracted => {
                proof {
                    reveal_strlit("extracted");
                    crate::text::lemma_ascii_sb("extracted"@);
                }
                "extracted"
            },
        }
    }
}

/// Concrete analysis strategy applied to one buffer.
#[derive(Debug, Clone, Copy, PartialEq, Eq, Structural)]
pub enum AnalysisProfile {
    /// Full instance symbols, outline children, and duplicate-name diagnostics.
    Full,
    /// Index `.subckt` / `.model` / `.param` only; sparse model refs for unknown-model.
    Extracted,
}

impl Default for AnalysisProfile {
    fn default() -> (p: Self)
        ensures
            p == AnalysisProfile::Full,
    {
        AnalysisProfile::Full
    }
}

impl AnalysisProfile {
    /// The settings identifier of the profile.
    pub fn id(self) -> (r: &'static str)
        ensures
            sb(r@) == (match self {
                AnalysisProfile::Full => word_full(),
                AnalysisProfile::Extracted => word_extracted(),
            }),
    {
        match self {
            AnalysisProfile::Full => {
                proof {
                    reveal_strlit("full");
                    crate::text::lemma_ascii_sb("full"@);
                }
                "full"
            },
            AnalysisProfile::Extracted => {
                proof {
                    reveal_strlit("extracted");
                    crate::text::lemma_ascii_sb("extracted"@);
                }
                "extracted"
            },
        }
    }
}

/// Default size gate for [`AnalysisMode::Auto`] (16 MiB).
pub const DEFAULT_EXTRACTED_BYTE_THRESHOLD: usize = 16777216;

/// The profile chosen for a buffer of `source_len` bytes.
pub open spec fn profile_for(mode: AnalysisMode, source_len: int, threshold: int) -> AnalysisProfile {
    match mode {
        AnalysisMode::Full => AnalysisProfile::Full,
        AnalysisMode::Extracted => AnalysisProfile::Extracted,
        AnalysisMode::Auto => if source_len >= threshold {
            AnalysisProfile::Extracted
        } else {
            AnalysisProfile::Full
        },
    }
}

/// Resolve the profile for a buffer of `source_len` bytes.
pub fn resolve_profile(mode: AnalysisMode, source_len: usize, threshold: usize) -> (p:
    AnalysisProfile)
    ensures
        p == profile_for(mode, source_len as int, threshold as int),
{
    match mode {
        AnalysisMode::Full => AnalysisProfile::Full,
        AnalysisMode::Extracted => AnalysisProfile::Extracted,
        AnalysisMode::Auto => {
            if source_len >= threshold {
                AnalysisProfile::Extracted
            } else {
                AnalysisProfile::Full
            }
        },
    }
}

/// Parsing the identifier of a mode gives the mode back, recognised.
pub proof fn law_mode_id_roundtrip(m: AnalysisMode)
    ensures
        mode_of_setting(mode_id(m)) == (m, true),
{
    let raw = mode_id(m);
    crate::text::lemma_lower_word(raw);
    assert(raw.subrange(0, raw.len() as int) =~= raw);
}

} // verus!
