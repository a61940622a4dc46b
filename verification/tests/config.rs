//! Configurations that are accepted, and why others are not.
use mcpg_plugin_identity_mtls::{
    default_auth_provider_label, default_trust_level, ChainPosition, ConfigError, ExtractionConfig,
    ExtractionHint, ExtractionMode, IdentityMetadata, MtlsConfig, ResolutionConfig, Source,
    StringMap,
};

fn config(sources: Vec<Source>, mode: ExtractionMode) -> MtlsConfig {
    MtlsConfig {
        sources,
        extraction: ExtractionConfig {
            mode,
            case_sensitive: false,
        },
        identities: StringMap::new(),
        resolution: ResolutionConfig::default(),
    }
}

fn xfcc(header: &str) -> Source {
    Source::Xfcc {
        header: header.to_owned(),
        chain_position: ChainPosition::default(),
    }
}

fn dn_string(header: &str) -> Source {
    Source::DnString {
        header: header.to_owned(),
    }
}

#[test]
fn parses_minimal_config() {
    let cfg = config(
        vec![Source::Xfcc {
            header: "XFCC".to_owned(),
            chain_position: ChainPosition::First,
        }],
        ExtractionMode::SubjectCn,
    );
    let parsed = MtlsConfig::parse(Ok(cfg)).unwrap();
    assert_eq!(parsed.sources.len(), 1);
    assert_eq!(parsed.extraction.mode, ExtractionMode::SubjectCn);
}

#[test]
fn default_trust_level_is_header_asserted() {
    assert_eq!(default_trust_level(), "header_asserted");
    let cfg = config(vec![xfcc("XFCC")], ExtractionMode::SubjectCn);
    let parsed = MtlsConfig::parse(Ok(cfg)).unwrap();
    assert_eq!(parsed.resolution.trust_level, "header_asserted");
}

#[test]
fn rejects_empty_sources() {
    let cfg = config(vec![], ExtractionMode::SubjectCn);
    let err = MtlsConfig::parse(Ok(cfg)).unwrap_err();
    assert!(matches!(err, ConfigError::EmptySources));
    assert_eq!(
        err.message(),
        "identity.mtls: `sources` must be non-empty"
    );
}

#[test]
fn rejects_empty_source_header() {
    let cfg = config(vec![dn_string("")], ExtractionMode::SubjectDn);
    let err = MtlsConfig::parse(Ok(cfg)).unwrap_err();
    assert!(matches!(err, ConfigError::EmptySourceHeader { .. }));
}

#[test]
fn rejects_invalid_trust_level() {
    let mut cfg = config(vec![xfcc("X")], ExtractionMode::SubjectCn);
    cfg.resolution.trust_level = "alien".to_owned();
    let err = MtlsConfig::parse(Ok(cfg)).unwrap_err();
    assert!(matches!(err, ConfigError::InvalidTrustLevel { .. }));
    assert_eq!(
        err.message(),
        "identity.mtls: invalid trust_level `alien` (allowed: verified | header_asserted)"
    );
}

#[test]
fn first_source_without_a_header_is_named() {
    let cfg = config(
        vec![
            xfcc("XFCC"),
            dn_string(" \t\u{2003}"),
            Source::CustomHeader {
                header: String::new(),
                extraction_hint: ExtractionHint::Dn,
            },
        ],
        ExtractionMode::SubjectCn,
    );
    let err = cfg.validate().unwrap_err();
    assert!(matches!(err, ConfigError::EmptySourceHeader { index: 1 }));
    assert_eq!(err.message(), "identity.mtls: source[1]: header is empty");
}

#[test]
fn sources_are_looked_at_before_the_trust_level() {
    let mut cfg = config(vec![xfcc("")], ExtractionMode::SubjectCn);
    cfg.resolution.trust_level = "alien".to_owned();
    assert!(matches!(
        cfg.validate().unwrap_err(),
        ConfigError::EmptySourceHeader { index: 0 }
    ));
    cfg.sources = vec![];
    assert!(matches!(
        cfg.validate().unwrap_err(),
        ConfigError::EmptySources
    ));
}

#[test]
fn both_trust_levels_are_accepted() {
    for level in ["verified", "header_asserted"] {
        let mut cfg = config(vec![xfcc("X")], ExtractionMode::SubjectCn);
        cfg.resolution.trust_level = level.to_owned();
        assert_eq!(cfg.resolution.is_verified(), level == "verified");
        let accepted = MtlsConfig::parse(Ok(cfg)).unwrap();
        assert_eq!(accepted.resolution.trust_level, level);
    }
    let mut cfg = config(vec![xfcc("X")], ExtractionMode::SubjectCn);
    cfg.resolution.trust_level = "Verified".to_owned();
    assert!(cfg.validate().is_err());
}

#[test]
fn json_error_is_carried_along() {
    let error = serde_json::from_str::<serde_json::Value>("{").unwrap_err();
    let words = error.to_string();
    let err = MtlsConfig::parse(Err(error)).unwrap_err();
    assert!(matches!(err, ConfigError::InvalidJson(_)));
    assert_eq!(
        err.message(),
        format!("invalid identity.mtls config JSON: {words}")
    );
    let converted = ConfigError::from(serde_json::from_str::<bool>("1").unwrap_err());
    assert!(matches!(converted, ConfigError::InvalidJson(_)));
}

#[test]
fn defaults() {
    assert_eq!(ChainPosition::default(), ChainPosition::First);
    assert_eq!(default_auth_provider_label(), "mtls");
    let resolution = ResolutionConfig::default();
    assert_eq!(resolution.trust_level, "header_asserted");
    assert_eq!(resolution.auth_provider_label, "mtls");
    let metadata = IdentityMetadata::default();
    assert!(metadata.roles.is_empty());
    assert!(metadata.groups.is_empty());
    assert!(metadata.scopes.is_empty());
    assert!(metadata.attributes.entries().is_empty());
}

#[test]
fn map_keeps_each_key_once() {
    let mut map: StringMap<String> = StringMap::new();
    map.insert("a".to_owned(), "1".to_owned());
    map.insert("b".to_owned(), "2".to_owned());
    map.insert("a".to_owned(), "3".to_owned());
    assert_eq!(map.entries().len(), 2);
    assert_eq!(map.get("a").map(String::as_str), Some("3"));
    assert_eq!(map.get("b").map(String::as_str), Some("2"));
    assert_eq!(map.get("c"), None);
    let copy = map.clone();
    assert_eq!(copy.entries(), map.entries());
}
