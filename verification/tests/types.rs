use domino::types::{AffectCause, LockfileStrategy, ReportTotals};

#[test]
fn test_lockfile_strategy_from_str_valid() {
    assert_eq!("none".parse::<LockfileStrategy>().unwrap(), LockfileStrategy::Off);
    assert_eq!("direct".parse::<LockfileStrategy>().unwrap(), LockfileStrategy::Direct);
    assert_eq!("full".parse::<LockfileStrategy>().unwrap(), LockfileStrategy::Full);
}

#[test]
fn test_lockfile_strategy_from_str_case_insensitive() {
    assert_eq!("Direct".parse::<LockfileStrategy>().unwrap(), LockfileStrategy::Direct);
    assert_eq!("FULL".parse::<LockfileStrategy>().unwrap(), LockfileStrategy::Full);
    assert_eq!("None".parse::<LockfileStrategy>().unwrap(), LockfileStrategy::Off);
}

#[test]
fn test_lockfile_strategy_from_str_invalid() {
    assert!("invalid".parse::<LockfileStrategy>().is_err());
    assert!("".parse::<LockfileStrategy>().is_err());
    assert!("direkt".parse::<LockfileStrategy>().is_err());
}

#[test]
fn test_lockfile_strategy_display_roundtrip() {
    for strategy in [LockfileStrategy::Off, LockfileStrategy::Direct, LockfileStrategy::Full] {
        let s = strategy.to_string();
        let parsed: LockfileStrategy = s.parse().unwrap();
        assert_eq!(parsed, strategy);
    }
}

#[test]
fn test_lockfile_strategy_default() {
    assert_eq!(LockfileStrategy::default(), LockfileStrategy::Direct);
}

#[test]
fn strategies_have_their_names() {
    assert_eq!(LockfileStrategy::Off.to_string(), "none");
    assert_eq!(LockfileStrategy::Direct.to_string(), "direct");
    assert_eq!(LockfileStrategy::Full.to_string(), "full");
}

#[test]
fn an_unknown_strategy_is_quoted_in_the_error() {
    assert_eq!(
        "Direkt".parse::<LockfileStrategy>().unwrap_err(),
        "Invalid lockfile strategy 'Direkt'. Expected: none, direct, full"
    );
    assert!("direct ".parse::<LockfileStrategy>().is_err());
    assert!("d\u{130}rect".parse::<LockfileStrategy>().is_err());
}

#[test]
fn totals_begin_at_zero() {
    let totals = ReportTotals::default();
    assert_eq!(totals.globally_invalidated, 0);
    assert_eq!(totals.semantically_affected, 0);
    assert_eq!(totals.overlap, 0);
    assert_eq!(totals.changed_files, 0);
}

#[test]
fn a_copied_cause_is_the_same() {
    let causes = vec![
        AffectCause::DirectChange { file: "a.ts".into(), symbol: Some("x".into()), line: 3 },
        AffectCause::ImportedSymbol {
            source_project: "core".into(),
            symbol: "x".into(),
            via_file: "b.ts".into(),
            source_file: "a.ts".into(),
        },
        AffectCause::ReExported {
            through_file: "b.ts".into(),
            symbol: "x".into(),
            source_file: "a.ts".into(),
        },
        AffectCause::ImplicitDependency { depends_on: "core".into() },
        AffectCause::AssetChange {
            asset_file: "a.css".into(),
            referenced_in: "a.ts".into(),
            line: 1,
        },
        AffectCause::LockfileChange { dependency: "d".into(), importing_file: "a.ts".into() },
        AffectCause::GlobalInvalidation { file: "nx.json".into(), named_input: "g".into() },
    ];
    for cause in &causes {
        assert_eq!(&cause.copy(), cause);
    }
}
