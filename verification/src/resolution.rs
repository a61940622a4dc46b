//! From a request's headers to a caller identity.
use crate::config::{
    ConfigView, ExtractionConfig, ExtractionMode, MetadataView, MtlsConfig, SourceView,
};
use crate::plugin::Inner;
use crate::source;
use crate::source::{parse_source, CertView, ParsedCertMetadata};
use crate::string_map::StringMap;
use crate::subject;
use crate::subject::extract_subject;
use crate::text;
use vstd::prelude::*;

verus! {

/// A caller identity.
#[derive(Debug, Clone)]
pub struct PluginIdentity {
    pub kind: String,
    pub trust_level: String,
    pub subject_id: Option<String>,
    pub auth_provider: Option<String>,
    pub issuer: Option<String>,
    pub roles: Vec<String>,
    pub groups: Vec<String>,
    pub scopes: Vec<String>,
    pub attributes: StringMap<String>,
}

/// What a request's headers come to.
#[derive(Debug, Clone)]
pub enum IdentityResolution {
    /// A source yielded a subject: this is the caller.
    Resolved { identity: PluginIdentity },
    /// No source gave certificate details: another provider may know the caller.
    NoIdentity,
    /// Certificate details were given, but none that name a subject: the request
    /// is refused.
    Invalid { reason: String, response_headers: Vec<(String, String)> },
}

/// The text of a `PluginIdentity`.
pub struct IdentityView {
    pub kind: Seq<char>,
    pub trust_level: Seq<char>,
    pub subject_id: Option<Seq<char>>,
    pub auth_provider: Option<Seq<char>>,
    pub issuer: Option<Seq<char>>,
    pub roles: Seq<Seq<char>>,
    pub groups: Seq<Seq<char>>,
    pub scopes: Seq<Seq<char>>,
    pub attributes: Map<Seq<char>, Seq<char>>,
}

impl View for PluginIdentity {
    type V = IdentityView;

    open spec fn view(&self) -> IdentityView {
        IdentityView {
            kind: self.kind@,
            trust_level: self.trust_level@,
            subject_id: text::view_option(self.subject_id),
            auth_provider: text::view_option(self.auth_provider),
            issuer: text::view_option(self.issuer),
            roles: self.roles.deep_view(),
            groups: self.groups.deep_view(),
            scopes: self.scopes.deep_view(),
            attributes: self.attributes@,
        }
    }
}

/// The text of an `IdentityResolution`.
pub enum ResolutionView {
    Resolved { identity: IdentityView },
    NoIdentity,
    Invalid { reason: Seq<char>, response_headers: Seq<(Seq<char>, Seq<char>)> },
}

impl View for IdentityResolution {
    type V = ResolutionView;

    open spec fn view(&self) -> ResolutionView {
        match self {
            IdentityResolution::Resolved { identity } => ResolutionView::Resolved {
                identity: identity@,
            },
            IdentityResolution::NoIdentity => ResolutionView::NoIdentity,
            IdentityResolution::Invalid { reason, response_headers } => ResolutionView::Invalid {
                reason: reason@,
                response_headers: response_headers.deep_view(),
            },
        }
    }
}

/// What the operator attaches to `subject`; nothing where the subject is unknown.
pub open spec fn metadata_of(
    identities: Map<Seq<char>, MetadataView>,
    subject: Seq<char>,
) -> MetadataView {
    if identities.contains_key(subject) {
        identities[subject]
    } else {
        crate::config::no_metadata()
    }
}

/// Attributes with what the source gave stamped over them.
pub open spec fn stamped(attributes: Map<Seq<char>, Seq<char>>, cert: CertView) -> Map<
    Seq<char>,
    Seq<char>,
> {
    let with_source = attributes.insert("mtls.source"@, cert.source_tag);
    let with_dn = match cert.subject_dn {
        Some(dn) => with_source.insert("mtls.subject_dn"@, dn),
        None => with_source,
    };
    match cert.fingerprint_sha256 {
        Some(fingerprint) => with_dn.insert("mtls.fingerprint"@, fingerprint),
        None => with_dn,
    }
}

/// The identity of `subject`, which `cert` named.
pub open spec fn identity_of(
    config: ConfigView,
    cert: CertView,
    subject: Seq<char>,
) -> IdentityView {
    let metadata = metadata_of(config.identities, subject);
    IdentityView {
        kind: config.trust_level,
        trust_level: config.trust_level,
        subject_id: Some(subject),
        auth_provider: Some(config.auth_provider_label),
        issuer: None,
        roles: metadata.roles,
        groups: metadata.groups,
        scopes: metadata.scopes,
        attributes: stamped(metadata.attributes, cert),
    }
}

/// What one source comes to: nothing, or certificate details with the subject
/// that they name or the reason why they name none.
pub open spec fn attempt(
    source: SourceView,
    extraction: ExtractionConfig,
    headers: Seq<(Seq<char>, Seq<char>)>,
) -> Option<(CertView, Result<Seq<char>, Seq<char>>)> {
    match source::source_details(source, headers) {
        None => None,
        Some(cert) => Some((cert, subject::subject_of(cert, extraction))),
    }
}

/// The details and the subject of the first source that yields a subject.
pub open spec fn first_subject(
    sources: Seq<SourceView>,
    extraction: ExtractionConfig,
    headers: Seq<(Seq<char>, Seq<char>)>,
) -> Option<(CertView, Seq<char>)>
    decreases sources.len(),
{
    if sources.len() == 0 {
        None
    } else {
        match attempt(sources.first(), extraction, headers) {
            Some((cert, Ok(subject))) => Some((cert, subject)),
            _ => first_subject(sources.drop_first(), extraction, headers),
        }
    }
}

/// The details of the last source that gave some which name no subject, and the
/// reason why not.
pub open spec fn last_failure(
    sources: Seq<SourceView>,
    extraction: ExtractionConfig,
    headers: Seq<(Seq<char>, Seq<char>)>,
) -> Option<(CertView, Seq<char>)>
    decreases sources.len(),
{
    if sources.len() == 0 {
        None
    } else {
        match attempt(sources.last(), extraction, headers) {
            Some((cert, Err(reason))) => Some((cert, reason)),
            _ => last_failure(sources.drop_last(), extraction, headers),
        }
    }
}

/// What a request with these headers comes to.
pub open spec fn resolution_of(
    config: ConfigView,
    headers: Seq<(Seq<char>, Seq<char>)>,
) -> ResolutionView {
    match first_subject(config.sources, config.extraction, headers) {
        Some((cert, subject)) => ResolutionView::Resolved {
            identity: identity_of(config, cert, subject),
        },
        None => match last_failure(config.sources, config.extraction, headers) {
            Some((cert, reason)) => ResolutionView::Invalid {
                reason: "mtls "@ + cert.source_tag + ": "@ + reason,
                response_headers: Seq::empty(),
            },
            None => ResolutionView::NoIdentity,
        },
    }
}

/// A copy of a list of strings.
fn copy_strings(v: &Vec<String>) -> (r: Vec<String>)
    ensures
        r.deep_view() == v.deep_view(),
{
    let r = v.clone();
    assert(r.deep_view() =~= v.deep_view());
    r
}

/// A copy of a map of strings.
fn copy_map(m: &StringMap<String>) -> (r: StringMap<String>)
    ensures
        r@ == m@,
{
    let r = m.clone();
    assert(r.listing() =~= m.listing());
    r
}

/// Makes the identity of `subject`, which `parsed` named.
pub fn identity_for(config: &MtlsConfig, parsed: &ParsedCertMetadata, subject: String) -> (r:
    PluginIdentity)
    ensures
        r@ == identity_of(config@, parsed@, subject@),
{
    let (roles, groups, scopes, mut attributes) = match config.identities.get(subject.as_str()) {
        Some(m) => (
            copy_strings(&m.roles),
            copy_strings(&m.groups),
            copy_strings(&m.scopes),
            copy_map(&m.attributes),
        ),
        None => {
            let none: Vec<String> = Vec::new();
            assert(none.deep_view() =~= Seq::<Seq<char>>::empty());
            (copy_strings(&none), copy_strings(&none), none, StringMap::new())
        },
    };
    attributes.insert("mtls.source".to_owned(), parsed.source_tag.to_owned());
    if let Some(dn) = &parsed.subject_dn {
        attributes.insert("mtls.subject_dn".to_owned(), dn.clone());
    }
    if let Some(fingerprint) = &parsed.fingerprint_sha256 {
        attributes.insert("mtls.fingerprint".to_owned(), fingerprint.clone());
    }
    PluginIdentity {
        kind: config.resolution.trust_level.clone(),
        trust_level: config.resolution.trust_level.clone(),
        subject_id: Some(subject),
        auth_provider: Some(config.resolution.auth_provider_label.clone()),
        issuer: None,
        roles,
        groups,
        scopes,
        attributes,
    }
}

/// The refusal of a request whose certificate details name no subject.
fn refusal(source_tag: &str, reason: &str) -> (r: IdentityResolution)
    ensures
        r@ == (ResolutionView::Invalid {
            reason: "mtls "@ + source_tag@ + ": "@ + reason@,
            response_headers: Seq::empty(),
        }),
{
    let mut words = "mtls ".to_owned();
    words.append(source_tag);
    words.append(": ");
    words.append(reason);
    let response_headers: Vec<(String, String)> = Vec::new();
    assert(response_headers.deep_view() =~= Seq::<(Seq<char>, Seq<char>)>::empty());
    IdentityResolution::Invalid { reason: words, response_headers }
}

/// Resolves the caller of a request with these headers: walks the sources in
/// their order, and takes the first that yields a subject. A subject that is a
/// common name is not empty.
pub fn resolve(inner: &Inner, headers: &[(String, String)]) -> (r: IdentityResolution)
    ensures
        r@ == resolution_of(inner.config@, headers.deep_view()),
        inner.config.extraction.mode == ExtractionMode::SubjectCn ==> (
        r matches IdentityResolution::Resolved { identity } ==> identity.subject_id is Some
            && identity.subject_id->0@.len() > 0),
{
    let ghost all = inner.config@.sources;
    let ghost how = inner.config.extraction;
    let ghost given = headers.deep_view();
    let mut last_invalid: Option<(&'static str, String)> = None;
    let mut i: usize = 0;
    assert(all.skip(0) =~= all);
    while i < inner.config.sources.len()
        invariant
            all == inner.config@.sources,
            how == inner.config.extraction,
            given == headers.deep_view(),
            i <= inner.config.sources@.len(),
            first_subject(all, how, given) == first_subject(all.skip(i as int), how, given),
            match last_invalid {
                None => last_failure(all.take(i as int), how, given) is None,
                Some((tag, reason)) => {
                    &&& last_failure(all.take(i as int), how, given) matches Some((cert, why))
                    &&& cert.source_tag == tag@
                    &&& why == reason@
                },
            },
        decreases inner.config.sources@.len() - i,
    {
        let source = &inner.config.sources[i];
        proof {
            assert(all.skip(i as int).first() == source@);
            assert(all.skip(i as int).drop_first() =~= all.skip(i + 1));
            assert(all.take(i + 1).drop_last() =~= all.take(i as int));
            assert(all.take(i + 1).last() == source@);
        }
        if let Some(parsed) = parse_source(source, headers) {
            match extract_subject(&parsed, &inner.config.extraction) {
                Ok(subject) => {
                    return IdentityResolution::Resolved {
                        identity: identity_for(&inner.config, &parsed, subject),
                    };
                },
                Err(reason) => {
                    last_invalid = Some((parsed.source_tag, reason));
                },
            }
        }
        i += 1;
    }
    assert(all.take(i as int) =~= all);
    match last_invalid {
        Some((tag, reason)) => refusal(tag, reason.as_str()),
        None => IdentityResolution::NoIdentity,
    }
}

} // verus!
