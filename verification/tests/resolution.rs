//! Whole requests.
use mcpg_plugin_identity_mtls::plugin::module_path_prefix;
use mcpg_plugin_identity_mtls::{
    identity_for, lookup_header, resolve, resolve_outcome, BuildInfo, ChainPosition, ConfigError,
    ExtractionConfig, ExtractionHint, ExtractionMode, IdentityMetadata, IdentityResolution,
    MtlsConfig, MtlsIdentityPlugin, ParsedCertMetadata, PluginClass, PluginIdentity,
    ResolutionConfig, Source, StringMap,
};

fn build_info() -> BuildInfo {
    BuildInfo {
        version: "0.1.0".to_owned(),
        module: "mcpg_plugin_identity_mtls::plugin".to_owned(),
    }
}

fn config(sources: Vec<Source>, mode: ExtractionMode) -> MtlsConfig {
    MtlsConfig {
        sources,
        extraction: ExtractionConfig {
            mode,
            case_sensitive: false,
        },
        identities: StringMap::new(),
        resolution: ResolutionConfig::default(),
    }
}

fn build(cfg: MtlsConfig) -> MtlsIdentityPlugin {
    MtlsIdentityPlugin::from_config_json(Ok(cfg), &build_info()).unwrap()
}

fn xfcc(header: &str, chain_position: ChainPosition) -> Source {
    Source::Xfcc {
        header: header.to_owned(),
        chain_position,
    }
}

fn dn_string(header: &str) -> Source {
    Source::DnString {
        header: header.to_owned(),
    }
}

fn fingerprint_header(header: &str) -> Source {
    Source::CustomHeader {
        header: header.to_owned(),
        extraction_hint: ExtractionHint::Fingerprint,
    }
}

fn h(name: &str, value: &str) -> Vec<(String, String)> {
    vec![(name.into(), value.into())]
}

fn resolved(r: IdentityResolution) -> PluginIdentity {
    match r {
        IdentityResolution::Resolved { identity } => identity,
        other => panic!("unexpected: {other:?}"),
    }
}

fn refused(r: IdentityResolution) -> String {
    match r {
        IdentityResolution::Invalid {
            reason,
            response_headers,
        } => {
            assert!(response_headers.is_empty());
            reason
        }
        other => panic!("unexpected: {other:?}"),
    }
}

#[test]
fn xfcc_subject_cn_resolves() {
    let plugin = build(config(
        vec![xfcc("X-Forwarded-Client-Cert", ChainPosition::First)],
        ExtractionMode::SubjectCn,
    ));
    let r = resolve(
        plugin.inner(),
        &h(
            "X-Forwarded-Client-Cert",
            "Hash=abcd;Subject=\"CN=alice,O=acme,L=NYC\"",
        ),
    );
    match r {
        IdentityResolution::Resolved { identity } => {
            assert_eq!(identity.subject_id.as_deref(), Some("alice"));
            assert_eq!(
                identity.attributes.get("mtls.source").map(String::as_str),
                Some("xfcc")
            );
        }
        other => panic!("unexpected: {other:?}"),
    }
}

#[test]
fn xfcc_chain_position_last() {
    let plugin = build(config(
        vec![xfcc("XFCC", ChainPosition::Last)],
        ExtractionMode::SubjectCn,
    ));
    let r = resolve(
        plugin.inner(),
        &h("XFCC", "Subject=\"CN=first\",Subject=\"CN=last\""),
    );
    match r {
        IdentityResolution::Resolved { identity } => {
            assert_eq!(identity.subject_id.as_deref(), Some("last"));
        }
        other => panic!("unexpected: {other:?}"),
    }
}

#[test]
fn xfcc_last_hop_with_quoted_commas_picks_correct_subject() {
    let plugin = build(config(
        vec![xfcc("XFCC", ChainPosition::Last)],
        ExtractionMode::SubjectCn,
    ));
    let raw = "By=spiffe://a;Subject=\"CN=alice,O=acme,C=US\",\
               By=spiffe://b;Subject=\"CN=bob,O=acme,C=US\"";
    let r = resolve(plugin.inner(), &h("XFCC", raw));
    match r {
        IdentityResolution::Resolved { identity } => {
            assert_eq!(identity.subject_id.as_deref(), Some("bob"));
        }
        other => panic!("unexpected: {other:?}"),
    }
}

#[test]
fn dn_string_subject_dn_normalised() {
    let plugin = build(config(
        vec![dn_string("X-SSL-Client-S-DN")],
        ExtractionMode::SubjectDn,
    ));
    let r = resolve(
        plugin.inner(),
        &h("X-SSL-Client-S-DN", " CN=alice , O=acme "),
    );
    match r {
        IdentityResolution::Resolved { identity } => {
            assert_eq!(identity.subject_id.as_deref(), Some("CN=alice,O=acme"));
        }
        other => panic!("unexpected: {other:?}"),
    }
}

#[test]
fn fingerprint_extraction_strips_colons() {
    let fp = "a".repeat(64);
    let colon_form: String = fp
        .as_bytes()
        .chunks(2)
        .map(|c| std::str::from_utf8(c).unwrap())
        .collect::<Vec<_>>()
        .join(":");
    let plugin = build(config(
        vec![fingerprint_header("X-Cert-Fingerprint")],
        ExtractionMode::Fingerprint,
    ));
    let r = resolve(plugin.inner(), &h("X-Cert-Fingerprint", &colon_form));
    match r {
        IdentityResolution::Resolved { identity } => {
            assert_eq!(identity.subject_id.as_deref(), Some(fp.as_str()));
        }
        other => panic!("unexpected: {other:?}"),
    }
}

#[test]
fn fingerprint_wrong_length_invalid() {
    let plugin = build(config(
        vec![fingerprint_header("X-Cert-Fingerprint")],
        ExtractionMode::Fingerprint,
    ));
    let r = resolve(plugin.inner(), &h("X-Cert-Fingerprint", "tooshort"));
    match r {
        IdentityResolution::Invalid { reason, .. } => {
            assert!(reason.contains("fingerprint"));
        }
        other => panic!("unexpected: {other:?}"),
    }
}

#[test]
fn no_source_present_returns_none() {
    let plugin = build(config(
        vec![xfcc("X-Forwarded-Client-Cert", ChainPosition::First)],
        ExtractionMode::SubjectCn,
    ));
    let r = resolve(plugin.inner(), &[]);
    assert!(matches!(r, IdentityResolution::NoIdentity));
}

#[test]
fn case_insensitive_cn_lowercased() {
    let plugin = build(config(
        vec![xfcc("XFCC", ChainPosition::First)],
        ExtractionMode::SubjectCn,
    ));
    let r = resolve(plugin.inner(), &h("XFCC", "Subject=\"CN=ALICE,O=acme\""));
    match r {
        IdentityResolution::Resolved { identity } => {
            assert_eq!(identity.subject_id.as_deref(), Some("alice"));
        }
        other => panic!("unexpected: {other:?}"),
    }
}

#[test]
fn case_sensitive_cn_preserved() {
    let mut cfg = config(
        vec![xfcc("XFCC", ChainPosition::First)],
        ExtractionMode::SubjectCn,
    );
    cfg.extraction.case_sensitive = true;
    let plugin = build(cfg);
    let r = resolve(plugin.inner(), &h("XFCC", "Subject=\"CN=ALICE,O=acme\""));
    match r {
        IdentityResolution::Resolved { identity } => {
            assert_eq!(identity.subject_id.as_deref(), Some("ALICE"));
        }
        other => panic!("unexpected: {other:?}"),
    }
}

fn alice() -> IdentityMetadata {
    let mut attributes = StringMap::new();
    attributes.insert("department".to_owned(), "platform".to_owned());
    IdentityMetadata {
        roles: vec!["operator".to_owned()],
        groups: vec!["humans".to_owned()],
        scopes: vec!["console.read".to_owned()],
        attributes,
    }
}

#[test]
fn identities_metadata_attached_to_resolved_identity() {
    let mut cfg = config(
        vec![xfcc("XFCC", ChainPosition::First)],
        ExtractionMode::SubjectCn,
    );
    cfg.identities.insert("alice".to_owned(), alice());
    let plugin = build(cfg);
    let r = resolve(plugin.inner(), &h("XFCC", "Subject=\"CN=alice\""));
    match r {
        IdentityResolution::Resolved { identity } => {
            assert_eq!(identity.roles, vec!["operator".to_owned()]);
            assert_eq!(identity.groups, vec!["humans".to_owned()]);
            assert_eq!(identity.scopes, vec!["console.read".to_owned()]);
            assert_eq!(
                identity.attributes.get("department").map(String::as_str),
                Some("platform")
            );
        }
        other => panic!("unexpected: {other:?}"),
    }
}

#[test]
fn multi_source_priority_xfcc_then_dn_string() {
    let plugin = build(config(
        vec![xfcc("XFCC", ChainPosition::First), dn_string("X-SSL-DN")],
        ExtractionMode::SubjectCn,
    ));
    // Only DN string present.
    let r = resolve(plugin.inner(), &h("X-SSL-DN", "CN=bob,O=acme"));
    match r {
        IdentityResolution::Resolved { identity } => {
            assert_eq!(identity.subject_id.as_deref(), Some("bob"));
            assert_eq!(
                identity.attributes.get("mtls.source").map(String::as_str),
                Some("dn_string")
            );
        }
        other => panic!("unexpected: {other:?}"),
    }
}

#[test]
fn first_source_with_a_subject_wins() {
    let plugin = build(config(
        vec![dn_string("A"), dn_string("B"), dn_string("C")],
        ExtractionMode::SubjectCn,
    ));
    let headers = vec![
        ("C".to_owned(), "CN=c".to_owned()),
        ("B".to_owned(), "CN=b".to_owned()),
        ("A".to_owned(), "O=acme".to_owned()),
    ];
    let identity = resolved(plugin.resolve_identity(&headers));
    assert_eq!(identity.subject_id.as_deref(), Some("b"));
    assert_eq!(
        identity
            .attributes
            .get("mtls.subject_dn")
            .map(String::as_str),
        Some("CN=b")
    );
}

#[test]
fn refusal_names_the_last_failure() {
    let plugin = build(config(
        vec![
            dn_string("A"),
            xfcc("B", ChainPosition::First),
            dn_string("C"),
        ],
        ExtractionMode::SubjectCn,
    ));
    let headers = vec![
        ("A".to_owned(), "CN=".to_owned()),
        ("B".to_owned(), "Hash=ab".to_owned()),
    ];
    assert_eq!(
        refused(plugin.resolve_identity(&headers)),
        "mtls xfcc: no subject_dn in cert metadata"
    );
    assert_eq!(
        refused(plugin.resolve_identity(&h("A", "CN="))),
        "mtls dn_string: subject CN extraction failed: empty CN"
    );
    assert_eq!(
        refused(plugin.resolve_identity(&h("C", "O=acme"))),
        "mtls dn_string: no CN= in subject_dn"
    );
}

#[test]
fn unmapped_subject_carries_nothing() {
    let mut cfg = config(vec![dn_string("A")], ExtractionMode::SubjectCn);
    cfg.identities.insert("alice".to_owned(), alice());
    let plugin = build(cfg);
    let identity = resolved(plugin.resolve_identity(&h("A", "CN=bob")));
    assert_eq!(identity.kind, "header_asserted");
    assert_eq!(identity.trust_level, "header_asserted");
    assert_eq!(identity.auth_provider.as_deref(), Some("mtls"));
    assert_eq!(identity.issuer, None);
    assert!(identity.roles.is_empty());
    assert!(identity.groups.is_empty());
    assert!(identity.scopes.is_empty());
    assert_eq!(identity.attributes.entries().len(), 2);
}

#[test]
fn stamps_win_over_metadata() {
    let mut cfg = config(vec![dn_string("A")], ExtractionMode::SubjectCn);
    let mut metadata = alice();
    for key in ["mtls.source", "mtls.subject_dn", "mtls.fingerprint"] {
        metadata
            .attributes
            .insert(key.to_owned(), "configured".to_owned());
    }
    cfg.identities.insert("alice".to_owned(), metadata);
    cfg.resolution.trust_level = "verified".to_owned();
    cfg.resolution.auth_provider_label = "mesh".to_owned();
    let parsed = ParsedCertMetadata {
        subject_dn: Some("CN=alice".to_owned()),
        fingerprint_sha256: None,
        source_tag: "xfcc",
    };
    let identity = identity_for(&cfg, &parsed, "alice".to_owned());
    let attribute = |key: &str| identity.attributes.get(key).cloned();
    assert_eq!(attribute("mtls.source").as_deref(), Some("xfcc"));
    assert_eq!(attribute("mtls.subject_dn").as_deref(), Some("CN=alice"));
    assert_eq!(attribute("mtls.fingerprint").as_deref(), Some("configured"));
    assert_eq!(attribute("department").as_deref(), Some("platform"));
    assert_eq!(identity.trust_level, "verified");
    assert_eq!(identity.auth_provider.as_deref(), Some("mesh"));
}

#[test]
fn fingerprint_is_stamped_in_lower_case() {
    let plugin = build(config(
        vec![xfcc("X", ChainPosition::First)],
        ExtractionMode::SubjectCn,
    ));
    let identity = resolved(plugin.resolve_identity(&h("X", "Hash=AB:CD;Subject=\"CN=a\"")));
    assert_eq!(
        identity
            .attributes
            .get("mtls.fingerprint")
            .map(String::as_str),
        Some("ab:cd")
    );
}

#[test]
fn header_names_ignore_case_and_the_first_counts() {
    let headers = vec![
        ("x-other".to_owned(), "0".to_owned()),
        ("X-Cert".to_owned(), "1".to_owned()),
        ("x-cert".to_owned(), "2".to_owned()),
        ("É".to_owned(), "3".to_owned()),
    ];
    assert_eq!(lookup_header(&headers, "x-CERT"), Some("1"));
    assert_eq!(lookup_header(&headers, "É"), Some("3"));
    assert_eq!(lookup_header(&headers, "é"), None);
    assert_eq!(lookup_header(&headers, "x-cer"), None);
}

#[test]
fn other_headers_do_not_count() {
    let plugin = build(config(vec![dn_string("A")], ExtractionMode::SubjectCn));
    let mut headers = h("B", "CN=mallory");
    headers.push(("a".to_owned(), "CN=alice".to_owned()));
    headers.push(("A".to_owned(), "CN=mallory".to_owned()));
    let identity = resolved(plugin.resolve_identity(&headers));
    assert_eq!(identity.subject_id.as_deref(), Some("alice"));
}

#[test]
fn no_plugin_without_a_valid_configuration() {
    let empty = config(vec![], ExtractionMode::SubjectCn);
    let r = MtlsIdentityPlugin::from_config_json(Ok(empty), &build_info());
    assert!(matches!(r, Err(ConfigError::EmptySources)));
    let error = serde_json::from_str::<serde_json::Value>("nonsense").unwrap_err();
    let r = MtlsIdentityPlugin::from_config_json(Err(error), &build_info());
    assert!(matches!(r, Err(ConfigError::InvalidJson(_))));
}

#[test]
fn manifest_asks_for_no_capability() {
    let plugin = build(config(vec![dn_string("A")], ExtractionMode::SubjectCn));
    let manifest = plugin.manifest();
    assert_eq!(manifest.id, "dev.mcpg.identity.mtls");
    assert_eq!(manifest.version, "0.1.0");
    assert_eq!(manifest.name, "mTLS Identity Resolver");
    assert_eq!(manifest.plugin_class, PluginClass::IdentityProvider);
    assert_eq!(manifest.protocol_version, "1.0");
    assert_eq!(manifest.module_path_prefix, "mcpg_plugin_identity_mtls");
    assert!(manifest.required_capabilities.is_empty());
    assert!(manifest.license.is_none());
    assert!(manifest.backend_profile.is_none());
    assert_eq!(plugin.inner().config.sources.len(), 1);
}

#[test]
fn crate_is_what_stands_before_the_colons() {
    assert_eq!(module_path_prefix("a::b::c"), "a");
    assert_eq!(module_path_prefix("abc"), "abc");
    assert_eq!(module_path_prefix("a:b:"), "a:b:");
    assert_eq!(module_path_prefix("::a"), "");
    assert_eq!(module_path_prefix(""), "");
}

#[test]
fn outcomes_are_counted_by_kind() {
    let plugin = build(config(vec![dn_string("A")], ExtractionMode::SubjectCn));
    let outcome = |headers: &[(String, String)]| resolve_outcome(&plugin.resolve_identity(headers));
    assert_eq!(outcome(&h("A", "CN=a")), "resolved");
    assert_eq!(outcome(&[]), "none");
    assert_eq!(outcome(&h("A", "O=a")), "invalid");
}
