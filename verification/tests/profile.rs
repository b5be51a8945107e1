use spice_lsp::dialect::Dialect;
use spice_lsp::profile::{resolve_profile, AnalysisMode, AnalysisProfile};
use std::str::FromStr;

#[test]
fn auto_respects_threshold() {
    assert_eq!(
        resolve_profile(AnalysisMode::Auto, 100, 1000),
        AnalysisProfile::Full
    );
    assert_eq!(
        resolve_profile(AnalysisMode::Auto, 1000, 1000),
        AnalysisProfile::Extracted
    );
}

#[test]
fn parse_mode() {
    assert_eq!(AnalysisMode::parse_or_default("extracted").0, AnalysisMode::Extracted);
    assert_eq!(AnalysisMode::parse_or_default("nope").0, AnalysisMode::Auto);
}

#[test]
fn default_is_hspice() {
    assert_eq!(Dialect::default(), Dialect::Hspice);
}

#[test]
fn parse_known_and_fallback() {
    assert_eq!(Dialect::from_str("NGSPICE"), Ok(Dialect::Ngspice));
    let (d, fell_back) = Dialect::parse_or_default("nope");
    assert_eq!(d, Dialect::Hspice);
    assert!(fell_back);
}

#[test]
fn mode_ids_round_trip() {
    for m in [AnalysisMode::Auto, AnalysisMode::Full, AnalysisMode::Extracted] {
        assert_eq!(AnalysisMode::parse_or_default(m.id()), (m, true));
    }
    for d in Dialect::ALL {
        assert_eq!(Dialect::parse_or_default(d.id()), (d, false));
    }
}

#[test]
fn explicit_modes_ignore_size() {
    assert_eq!(resolve_profile(AnalysisMode::Full, 10, 1), AnalysisProfile::Full);
    assert_eq!(resolve_profile(AnalysisMode::Extracted, 0, 1000), AnalysisProfile::Extracted);
}
