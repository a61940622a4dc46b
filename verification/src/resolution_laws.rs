//! What holds of every resolution.
use crate::config;
use crate::config::{ConfigError, ConfigView, ExtractionConfig, ExtractionMode, SourceView};
use crate::plugin;
use crate::resolution;
use crate::resolution::{IdentityResolution, IdentityView, PluginIdentity, ResolutionView};
use crate::source;
use crate::source::CertView;
use crate::subject;
use crate::subject_laws;
use crate::text;
use vstd::prelude::*;

verus! {

/// The first source that yields a subject decides: its details and its subject
/// make the identity, whatever the sources before and behind it come to.
pub proof fn law_first_source_with_a_subject_wins(
    config: ConfigView,
    headers: Seq<(Seq<char>, Seq<char>)>,
    i: int,
    cert: CertView,
    subject: Seq<char>,
)
    requires
        0 <= i < config.sources.len(),
        source::source_details(config.sources[i], headers) == Some(cert),
        subject::subject_of(cert, config.extraction) == Ok::<Seq<char>, Seq<char>>(subject),
        forall|j: int|
            0 <= j < i ==> !yields_subject(
                #[trigger] config.sources[j],
                config.extraction,
                headers,
            ),
    ensures
        resolution::resolution_of(config, headers) == (ResolutionView::Resolved {
            identity: resolution::identity_of(config, cert, subject),
        }),
{
    lemma_first_subject_at(config.sources, config.extraction, headers, i);
}

/// Whether a source yields a subject: it gives details, and they name one.
pub open spec fn yields_subject(
    source: SourceView,
    extraction: ExtractionConfig,
    headers: Seq<(Seq<char>, Seq<char>)>,
) -> bool {
    source::source_details(source, headers) matches Some(cert) && subject::subject_of(
        cert,
        extraction,
    ) is Ok
}

proof fn lemma_first_subject_at(
    sources: Seq<SourceView>,
    extraction: ExtractionConfig,
    headers: Seq<(Seq<char>, Seq<char>)>,
    i: int,
)
    requires
        0 <= i < sources.len(),
        yields_subject(sources[i], extraction, headers),
        forall|j: int|
            0 <= j < i ==> !yields_subject(#[trigger] sources[j], extraction, headers),
    ensures
        resolution::attempt(sources[i], extraction, headers) matches Some((cert, Ok(subject)))
            && resolution::first_subject(sources, extraction, headers) == Some((cert, subject)),
    decreases sources.len(),
{
    if i > 0 {
        assert(!yields_subject(sources[0], extraction, headers));
        let rest = sources.drop_first();
        assert forall|j: int| 0 <= j < i - 1 implies !yields_subject(
            #[trigger] rest[j],
            extraction,
            headers,
        ) by {
            assert(rest[j] == sources[j + 1]);
        }
        lemma_first_subject_at(rest, extraction, headers, i - 1);
    }
}

proof fn lemma_no_first_subject(
    sources: Seq<SourceView>,
    extraction: ExtractionConfig,
    headers: Seq<(Seq<char>, Seq<char>)>,
)
    requires
        forall|j: int|
            0 <= j < sources.len() ==> !yields_subject(#[trigger] sources[j], extraction, headers),
    ensures
        resolution::first_subject(sources, extraction, headers) is None,
    decreases sources.len(),
{
    if sources.len() > 0 {
        assert(!yields_subject(sources[0], extraction, headers));
        let rest = sources.drop_first();
        assert forall|j: int| 0 <= j < rest.len() implies !yields_subject(
            #[trigger] rest[j],
            extraction,
            headers,
        ) by {
            assert(rest[j] == sources[j + 1]);
        }
        lemma_no_first_subject(rest, extraction, headers);
    }
}

proof fn lemma_first_subject_comes_from_a_source(
    sources: Seq<SourceView>,
    extraction: ExtractionConfig,
    headers: Seq<(Seq<char>, Seq<char>)>,
)
    ensures
        resolution::first_subject(sources, extraction, headers) is Some ==> exists|j: int|
            0 <= j < sources.len() && yields_subject(#[trigger] sources[j], extraction, headers),
    decreases sources.len(),
{
    if sources.len() > 0 {
        if yields_subject(sources[0], extraction, headers) {
        } else {
            let rest = sources.drop_first();
            lemma_first_subject_comes_from_a_source(rest, extraction, headers);
            if resolution::first_subject(rest, extraction, headers) is Some {
                let j = choose|j: int|
                    0 <= j < rest.len() && yields_subject(#[trigger] rest[j], extraction, headers);
                assert(yields_subject(sources[j + 1], extraction, headers));
            }
        }
    }
}

proof fn lemma_last_failure_at(
    sources: Seq<SourceView>,
    extraction: ExtractionConfig,
    headers: Seq<(Seq<char>, Seq<char>)>,
    i: int,
)
    requires
        0 <= i < sources.len(),
        resolution::attempt(sources[i], extraction, headers) matches Some((_, Err(_))),
        forall|j: int|
            i < j < sources.len() ==> resolution::attempt(
                #[trigger] sources[j],
                extraction,
                headers,
            ) is None,
    ensures
        resolution::attempt(sources[i], extraction, headers) matches Some((cert, Err(reason)))
            && resolution::last_failure(sources, extraction, headers) == Some((cert, reason)),
    decreases sources.len(),
{
    let last = sources.len() - 1;
    if i < last {
        assert(resolution::attempt(sources[last], extraction, headers) is None);
        lemma_last_failure_at(sources.drop_last(), extraction, headers, i);
    }
}

proof fn lemma_no_last_failure(
    sources: Seq<SourceView>,
    extraction: ExtractionConfig,
    headers: Seq<(Seq<char>, Seq<char>)>,
)
    requires
        forall|j: int|
            0 <= j < sources.len() ==> resolution::attempt(
                #[trigger] sources[j],
                extraction,
                headers,
            ) is None,
    ensures
        resolution::last_failure(sources, extraction, headers) is None,
    decreases sources.len(),
{
    if sources.len() > 0 {
        assert(resolution::attempt(sources[sources.len() - 1], extraction, headers) is None);
        lemma_no_last_failure(sources.drop_last(), extraction, headers);
    }
}

proof fn lemma_some_last_failure(
    sources: Seq<SourceView>,
    extraction: ExtractionConfig,
    headers: Seq<(Seq<char>, Seq<char>)>,
    i: int,
)
    requires
        0 <= i < sources.len(),
        resolution::attempt(sources[i], extraction, headers) is Some,
        !yields_subject(sources[i], extraction, headers),
    ensures
        resolution::last_failure(sources, extraction, headers) is Some,
    decreases sources.len(),
{
    let last = sources.len() - 1;
    if i < last {
        lemma_some_last_failure(sources.drop_last(), extraction, headers, i);
    }
}

/// A caller is resolved exactly when some source yields a subject.
pub proof fn law_resolved_iff_a_source_yields_a_subject(
    config: ConfigView,
    headers: Seq<(Seq<char>, Seq<char>)>,
)
    ensures
        resolution::resolution_of(config, headers) is Resolved <==> exists|i: int|
            0 <= i < config.sources.len() && yields_subject(
                #[trigger] config.sources[i],
                config.extraction,
                headers,
            ),
{
    lemma_first_subject_comes_from_a_source(config.sources, config.extraction, headers);
    if resolution::first_subject(config.sources, config.extraction, headers) is None {
        if exists|i: int|
            0 <= i < config.sources.len() && yields_subject(
                #[trigger] config.sources[i],
                config.extraction,
                headers,
            ) {
            let i = choose|i: int|
                0 <= i < config.sources.len() && yields_subject(
                    #[trigger] config.sources[i],
                    config.extraction,
                    headers,
                );
            lemma_first_subject_some(config.sources, config.extraction, headers, i);
        }
    }
}

proof fn lemma_first_subject_some(
    sources: Seq<SourceView>,
    extraction: ExtractionConfig,
    headers: Seq<(Seq<char>, Seq<char>)>,
    i: int,
)
    requires
        0 <= i < sources.len(),
        yields_subject(sources[i], extraction, headers),
    ensures
        resolution::first_subject(sources, extraction, headers) is Some,
    decreases sources.len(),
{
    if i > 0 {
        lemma_first_subject_some(sources.drop_first(), extraction, headers, i - 1);
    }
}

/// The next identity provider is asked exactly when no source gave any
/// certificate details.
pub proof fn law_none_iff_no_source_gives_details(
    config: ConfigView,
    headers: Seq<(Seq<char>, Seq<char>)>,
)
    ensures
        resolution::resolution_of(config, headers) is NoIdentity <==> forall|i: int|
            0 <= i < config.sources.len() ==> source::source_details(
                #[trigger] config.sources[i],
                headers,
            ) is None,
{
    let sources = config.sources;
    let how = config.extraction;
    law_resolved_iff_a_source_yields_a_subject(config, headers);
    if forall|i: int|
        0 <= i < sources.len() ==> source::source_details(#[trigger] sources[i], headers) is None {
        lemma_no_first_subject(sources, how, headers);
        lemma_no_last_failure(sources, how, headers);
    } else {
        let i = choose|i: int|
            0 <= i < sources.len() && source::source_details(
                #[trigger] sources[i],
                headers,
            ) is Some;
        if !yields_subject(sources[i], how, headers) {
            lemma_some_last_failure(sources, how, headers, i);
        }
    }
}

/// A request is refused exactly when some source gave certificate details and no
/// source yields a subject: it does not fall through to a laxer provider.
pub proof fn law_invalid_iff_details_name_no_subject(
    config: ConfigView,
    headers: Seq<(Seq<char>, Seq<char>)>,
)
    ensures
        resolution::resolution_of(config, headers) is Invalid <==> {
            &&& exists|i: int|
                0 <= i < config.sources.len() && source::source_details(
                    #[trigger] config.sources[i],
                    headers,
                ) is Some
            &&& forall|i: int|
                0 <= i < config.sources.len() ==> !yields_subject(
                    #[trigger] config.sources[i],
                    config.extraction,
                    headers,
                )
        },
{
    law_resolved_iff_a_source_yields_a_subject(config, headers);
    law_none_iff_no_source_gives_details(config, headers);
}

/// A refusal names the last source that gave certificate details, and says why
/// they name no subject.
pub proof fn law_refusal_names_the_last_failure(
    config: ConfigView,
    headers: Seq<(Seq<char>, Seq<char>)>,
    i: int,
    cert: CertView,
    reason: Seq<char>,
)
    requires
        resolution::resolution_of(config, headers) is Invalid,
        0 <= i < config.sources.len(),
        source::source_details(config.sources[i], headers) == Some(cert),
        subject::subject_of(cert, config.extraction) == Err::<Seq<char>, Seq<char>>(reason),
        forall|j: int|
            i < j < config.sources.len() ==> source::source_details(
                #[trigger] config.sources[j],
                headers,
            ) is None,
    ensures
        resolution::resolution_of(config, headers) == (ResolutionView::Invalid {
            reason: "mtls "@ + cert.source_tag + ": "@ + reason,
            response_headers: Seq::empty(),
        }),
{
    lemma_last_failure_at(config.sources, config.extraction, headers, i);
}

/// Sources behind the one that resolved the caller change nothing.
pub proof fn law_later_sources_do_not_matter(
    config: ConfigView,
    more: Seq<SourceView>,
    headers: Seq<(Seq<char>, Seq<char>)>,
)
    requires
        resolution::resolution_of(config, headers) is Resolved,
    ensures
        resolution::resolution_of(
            ConfigView { sources: config.sources + more, ..config },
            headers,
        ) == resolution::resolution_of(config, headers),
{
    lemma_first_subject_of_more(config.sources, more, config.extraction, headers);
}

proof fn lemma_first_subject_of_more(
    sources: Seq<SourceView>,
    more: Seq<SourceView>,
    extraction: ExtractionConfig,
    headers: Seq<(Seq<char>, Seq<char>)>,
)
    ensures
        resolution::first_subject(sources, extraction, headers) matches Some(x)
            ==> resolution::first_subject(sources + more, extraction, headers) == Some(x),
    decreases sources.len(),
{
    if sources.len() > 0 {
        assert((sources + more).drop_first() =~= sources.drop_first() + more);
        lemma_first_subject_of_more(sources.drop_first(), more, extraction, headers);
    }
}

/// Of a request's headers only those count that the sources name, and of each
/// only the value under its name.
pub proof fn law_only_configured_headers_count(
    config: ConfigView,
    headers: Seq<(Seq<char>, Seq<char>)>,
    others: Seq<(Seq<char>, Seq<char>)>,
)
    requires
        forall|i: int|
            #![trigger config.sources[i]]
            0 <= i < config.sources.len() ==> source::header_value(
                headers,
                config.sources[i].header_name(),
            ) == source::header_value(others, config.sources[i].header_name()),
    ensures
        resolution::resolution_of(config, headers) == resolution::resolution_of(config, others),
{
    lemma_same_values(config.sources, config.extraction, headers, others);
}

proof fn lemma_same_values(
    sources: Seq<SourceView>,
    extraction: ExtractionConfig,
    headers: Seq<(Seq<char>, Seq<char>)>,
    others: Seq<(Seq<char>, Seq<char>)>,
)
    requires
        forall|i: int|
            #![trigger sources[i]]
            0 <= i < sources.len() ==> source::header_value(headers, sources[i].header_name())
                == source::header_value(others, sources[i].header_name()),
    ensures
        resolution::first_subject(sources, extraction, headers) == resolution::first_subject(
            sources,
            extraction,
            others,
        ),
        resolution::last_failure(sources, extraction, headers) == resolution::last_failure(
            sources,
            extraction,
            others,
        ),
    decreases sources.len(),
{
    if sources.len() > 0 {
        let n = sources.len() - 1;
        assert(source::source_details(sources[0], headers) == source::source_details(
            sources[0],
            others,
        ));
        assert(source::source_details(sources[n], headers) == source::source_details(
            sources[n],
            others,
        ));
        let rest = sources.drop_first();
        assert forall|i: int| #![trigger rest[i]] 0 <= i < rest.len() implies source::header_value(
            headers,
            rest[i].header_name(),
        ) == source::header_value(others, rest[i].header_name()) by {
            assert(rest[i] == sources[i + 1]);
        }
        lemma_same_values(rest, extraction, headers, others);
        lemma_same_values(sources.drop_last(), extraction, headers, others);
    }
}

/// The case of header names does not count, neither in the request nor in the
/// configuration.
pub proof fn law_header_names_ignore_case(
    headers: Seq<(Seq<char>, Seq<char>)>,
    others: Seq<(Seq<char>, Seq<char>)>,
    name: Seq<char>,
    other_name: Seq<char>,
)
    requires
        headers.len() == others.len(),
        forall|i: int|
            0 <= i < headers.len() ==> text::ascii_lowercase((#[trigger] headers[i]).0)
                == text::ascii_lowercase(others[i].0) && headers[i].1 == others[i].1,
        text::ascii_lowercase(name) == text::ascii_lowercase(other_name),
    ensures
        source::header_value(headers, name) == source::header_value(others, other_name),
    decreases headers.len(),
{
    if headers.len() > 0 {
        assert(headers[0].1 == others[0].1);
        let rest = headers.drop_first();
        let other_rest = others.drop_first();
        assert forall|i: int| 0 <= i < rest.len() implies text::ascii_lowercase(
            (#[trigger] rest[i]).0,
        ) == text::ascii_lowercase(other_rest[i].0) && rest[i].1 == other_rest[i].1 by {
            assert(rest[i] == headers[i + 1]);
        }
        law_header_names_ignore_case(rest, other_rest, name, other_name);
    }
}

/// Of headers with one name the first counts.
pub proof fn law_first_header_of_a_name_counts(
    headers: Seq<(Seq<char>, Seq<char>)>,
    more: Seq<(Seq<char>, Seq<char>)>,
    name: Seq<char>,
)
    ensures
        source::header_value(headers + more, name) == match source::header_value(headers, name) {
            Some(value) => Some(value),
            None => source::header_value(more, name),
        },
    decreases headers.len(),
{
    if headers.len() == 0 {
        assert(headers + more =~= more);
    } else {
        assert((headers + more).drop_first() =~= headers.drop_first() + more);
        law_first_header_of_a_name_counts(headers.drop_first(), more, name);
    }
}

/// A subject without metadata still has an identity: one with no role, group or
/// scope, and with no attribute but those that the source gave.
pub proof fn law_unmapped_subject_carries_nothing(
    config: ConfigView,
    cert: CertView,
    subject: Seq<char>,
)
    requires
        !config.identities.contains_key(subject),
    ensures
        ({
            let identity = resolution::identity_of(config, cert, subject);
            &&& identity.subject_id == Some(subject)
            &&& identity.roles.len() == 0
            &&& identity.groups.len() == 0
            &&& identity.scopes.len() == 0
            &&& forall|k: Seq<char>| #[trigger]
                identity.attributes.contains_key(k) ==> k == "mtls.source"@ || k
                    == "mtls.subject_dn"@ || k == "mtls.fingerprint"@
        }),
{
}

/// A mapped subject carries the metadata mapped to it.
pub proof fn law_mapped_subject_carries_its_metadata(
    config: ConfigView,
    cert: CertView,
    subject: Seq<char>,
)
    requires
        config.identities.contains_key(subject),
    ensures
        ({
            let identity = resolution::identity_of(config, cert, subject);
            let metadata = config.identities[subject];
            &&& identity.subject_id == Some(subject)
            &&& identity.roles == metadata.roles
            &&& identity.groups == metadata.groups
            &&& identity.scopes == metadata.scopes
            &&& forall|k: Seq<char>| #[trigger]
                metadata.attributes.contains_key(k) && k != "mtls.source"@ && k
                    != "mtls.subject_dn"@ && k != "mtls.fingerprint"@
                    ==> identity.attributes.contains_key(k) && identity.attributes[k]
                    == metadata.attributes[k]
        }),
{
}

/// What the source gave is stamped on the attributes, over whatever the operator
/// attached under the same keys.
pub proof fn law_stamps_win_over_metadata(
    config: ConfigView,
    cert: CertView,
    subject: Seq<char>,
)
    ensures
        ({
            let attributes = resolution::identity_of(config, cert, subject).attributes;
            &&& attributes.contains_key("mtls.source"@)
            &&& attributes["mtls.source"@] == cert.source_tag
            &&& cert.subject_dn matches Some(dn) ==> attributes.contains_key("mtls.subject_dn"@)
                && attributes["mtls.subject_dn"@] == dn
            &&& cert.fingerprint_sha256 matches Some(fingerprint) ==> attributes.contains_key(
                "mtls.fingerprint"@,
            ) && attributes["mtls.fingerprint"@] == fingerprint
        }),
{
    reveal_strlit("mtls.source");
    reveal_strlit("mtls.subject_dn");
    reveal_strlit("mtls.fingerprint");
    assert("mtls.source"@.len() != "mtls.subject_dn"@.len());
    assert("mtls.source"@.len() != "mtls.fingerprint"@.len());
    assert("mtls.subject_dn"@.len() != "mtls.fingerprint"@.len());
}

/// A resolved identity carries the configured trust level and label, and names no
/// issuer. Under a valid configuration the level is one of the two.
pub proof fn law_identity_carries_the_configured_trust(
    config: ConfigView,
    headers: Seq<(Seq<char>, Seq<char>)>,
)
    ensures
        resolution::resolution_of(config, headers) matches ResolutionView::Resolved { identity }
            ==> {
            &&& identity.trust_level == config.trust_level
            &&& identity.kind == config.trust_level
            &&& identity.auth_provider == Some(config.auth_provider_label)
            &&& identity.issuer is None
            &&& identity.subject_id is Some
            &&& config.is_valid() ==> config::is_trust_level(identity.trust_level)
        },
{
}

/// A source that gives details gives a subject DN or a fingerprint, and tells
/// which kind of source it is.
pub proof fn law_details_are_tagged_and_not_empty(
    source: SourceView,
    headers: Seq<(Seq<char>, Seq<char>)>,
)
    ensures
        source::source_details(source, headers) matches Some(cert) ==> {
            &&& cert.subject_dn is Some || cert.fingerprint_sha256 is Some
            &&& cert.source_tag == match source {
                SourceView::Xfcc { .. } => "xfcc"@,
                SourceView::DnString { .. } => "dn_string"@,
                SourceView::CustomHeader { .. } => "custom_header"@,
            }
        },
{
}

/// A configuration is either valid or refused, with one error.
pub proof fn law_refused_with_one_error(
    config: ConfigView,
    error: ConfigError,
    other: ConfigError,
)
    requires
        config.is_refused_with(error),
    ensures
        !config.is_valid(),
        config.is_refused_with(other) ==> match (error, other) {
            (ConfigError::EmptySources, ConfigError::EmptySources) => true,
            (
                ConfigError::EmptySourceHeader { index: a },
                ConfigError::EmptySourceHeader { index: b },
            ) => a == b,
            (
                ConfigError::InvalidTrustLevel { value: a },
                ConfigError::InvalidTrustLevel { value: b },
            ) => a@ == b@,
            _ => false,
        },
{
    match (error, other) {
        (
            ConfigError::EmptySourceHeader { index: a },
            ConfigError::EmptySourceHeader { index: b },
        ) => {
            assert(config.sources[a as int].is_blank());
            if config.is_refused_with(other) {
                assert(config.sources[b as int].is_blank());
            }
        },
        (ConfigError::EmptySourceHeader { index: a }, _) => {
            assert(config.sources[a as int].is_blank());
        },
        (_, ConfigError::EmptySourceHeader { index: b }) => {
            if config.is_refused_with(other) {
                assert(config.sources[b as int].is_blank());
            }
        },
        _ => {},
    }
}

/// The lower trust level, which is the one that goes without saying, is not the
/// full one.
pub proof fn law_default_trust_is_not_full_trust()
    ensures
        config::is_trust_level("header_asserted"@),
        "header_asserted"@ != "verified"@,
{
    reveal_strlit("header_asserted");
    reveal_strlit("verified");
    assert("header_asserted"@.len() != "verified"@.len());
}

/// Resolutions are counted under one word exactly when they are of one kind.
pub proof fn law_outcomes_tell_kinds_apart(a: ResolutionView, b: ResolutionView)
    ensures
        plugin::outcome_of(a) == plugin::outcome_of(b) <==> {
            ||| a is Resolved && b is Resolved
            ||| a is NoIdentity && b is NoIdentity
            ||| a is Invalid && b is Invalid
        },
{
    reveal_strlit("resolved");
    reveal_strlit("none");
    reveal_strlit("invalid");
    assert("resolved"@.len() != "none"@.len());
    assert("resolved"@.len() != "invalid"@.len());
    assert("none"@.len() != "invalid"@.len());
}

/// What an identity says of `subject`, which `cert` named: the subject itself, the
/// configured trust and label, the metadata mapped to the subject and nothing where none
/// is, and the attributes with what the source gave over them.
pub open spec fn is_identity_of(
    identity: IdentityView,
    config: ConfigView,
    cert: CertView,
    subject: Seq<char>,
) -> bool {
    let mapped = config.identities.contains_key(subject);
    let metadata = config.identities[subject];
    &&& identity.subject_id == Some(subject)
    &&& identity.kind == config.trust_level
    &&& identity.trust_level == config.trust_level
    &&& identity.auth_provider == Some(config.auth_provider_label)
    &&& identity.issuer is None
    &&& mapped ==> identity.roles == metadata.roles && identity.groups == metadata.groups
        && identity.scopes == metadata.scopes
    &&& !mapped ==> identity.roles.len() == 0 && identity.groups.len() == 0
        && identity.scopes.len() == 0
    &&& forall|k: Seq<char>| #[trigger]
        identity.attributes.contains_key(k) <==> {
            ||| k == "mtls.source"@
            ||| k == "mtls.subject_dn"@ && cert.subject_dn is Some
            ||| k == "mtls.fingerprint"@ && cert.fingerprint_sha256 is Some
            ||| mapped && metadata.attributes.contains_key(k)
        }
    &&& identity.attributes["mtls.source"@] == cert.source_tag
    &&& cert.subject_dn matches Some(dn) ==> identity.attributes["mtls.subject_dn"@] == dn
    &&& cert.fingerprint_sha256 matches Some(f) ==> identity.attributes["mtls.fingerprint"@] == f
    &&& forall|k: Seq<char>|
        #![trigger identity.attributes[k]]
        mapped && metadata.attributes.contains_key(k) && k != "mtls.source"@ && !(k
            == "mtls.subject_dn"@ && cert.subject_dn is Some) && !(k == "mtls.fingerprint"@
            && cert.fingerprint_sha256 is Some) ==> identity.attributes[k]
            == metadata.attributes[k]
}

/// The caller is the subject that the details of the first source to yield one name,
/// under the configured extraction, for every kind of source and every mode, and the
/// identity says of it what it should.
pub proof fn law_caller_is_the_subject_that_the_details_name(
    config: ConfigView,
    headers: Seq<(Seq<char>, Seq<char>)>,
    i: int,
    cert: CertView,
    subject: Seq<char>,
)
    requires
        0 <= i < config.sources.len(),
        source::source_details(config.sources[i], headers) == Some(cert),
        subject::subject_of(cert, config.extraction) == Ok::<Seq<char>, Seq<char>>(subject),
        forall|j: int|
            0 <= j < i ==> !yields_subject(
                #[trigger] config.sources[j],
                config.extraction,
                headers,
            ),
    ensures
        resolution::resolution_of(config, headers) matches ResolutionView::Resolved { identity }
            && is_identity_of(identity, config, cert, subject),
{
    law_first_source_with_a_subject_wins(config, headers, i, cert, subject);
    law_stamps_win_over_metadata(config, cert, subject);
    reveal_strlit("mtls.source");
    reveal_strlit("mtls.subject_dn");
    reveal_strlit("mtls.fingerprint");
    assert("mtls.source"@.len() != "mtls.subject_dn"@.len());
    assert("mtls.source"@.len() != "mtls.fingerprint"@.len());
    assert("mtls.subject_dn"@.len() != "mtls.fingerprint"@.len());
}

/// With a single source, of whatever kind, the caller is what the configured mode makes
/// of its details: the normal form of the whole DN, the first common name of the DN as
/// it stands or in lower case, or the 64 hexadecimal digits of the fingerprint.
pub proof fn law_single_source_follows_the_configured_mode(
    config: ConfigView,
    headers: Seq<(Seq<char>, Seq<char>)>,
    cert: CertView,
    dn: Seq<char>,
    cn: Seq<char>,
    fingerprint: Seq<char>,
)
    requires
        config.sources.len() == 1,
        source::source_details(config.sources[0], headers) == Some(cert),
    ensures
        ({
            let caller = caller_of(resolution::resolution_of(config, headers));
            let how = config.extraction;
            let digits = text::hex_digits(text::lowercased(fingerprint));
            &&& how.mode == ExtractionMode::SubjectDn && cert.subject_dn == Some(dn) ==> caller
                == Some(subject::normalised_dn(dn))
            &&& how.mode == ExtractionMode::SubjectCn && cert.subject_dn == Some(dn)
                && subject::common_name_of(dn) == Some(cn) && cn.len() > 0 ==> caller == Some(
                if how.case_sensitive {
                    cn
                } else {
                    text::lowercased(cn)
                },
            )
            &&& how.mode == ExtractionMode::SubjectCn && cert.subject_dn == Some(dn)
                && subject::common_name_of(dn) is None ==> caller is None
            &&& how.mode == ExtractionMode::Fingerprint && cert.fingerprint_sha256 == Some(
                fingerprint,
            ) ==> caller == (if digits.len() == 64 {
                Some(digits)
            } else {
                None
            })
            &&& how.mode != ExtractionMode::Fingerprint && cert.subject_dn is None ==> caller is None
            &&& how.mode == ExtractionMode::Fingerprint && cert.fingerprint_sha256 is None
                ==> caller is None
            &&& caller is None ==> resolution::resolution_of(config, headers) is Invalid
        }),
{
    subject_laws::law_each_mode_names_its_subject(cert, config.extraction, dn, cn, fingerprint);
    law_resolved_iff_a_source_yields_a_subject(config, headers);
    law_none_iff_no_source_gives_details(config, headers);
    assert(source::source_details(config.sources[0], headers) is Some);
    if let Ok(named) = subject::subject_of(cert, config.extraction) {
        law_caller_is_the_subject_that_the_details_name(config, headers, 0, cert, named);
    } else {
        assert(!yields_subject(config.sources[0], config.extraction, headers));
    }
}

/// The subject of a resolved caller.
pub open spec fn caller_of(r: ResolutionView) -> Option<Seq<char>> {
    match r {
        ResolutionView::Resolved { identity } => identity.subject_id,
        _ => None,
    }
}

/// The text of an identity is that of each part.
pub proof fn law_view_of_an_identity(
    identity: PluginIdentity,
    subject: String,
    provider: String,
    issuer: String,
    i: int,
)
    ensures
        identity@.kind == identity.kind@,
        identity@.trust_level == identity.trust_level@,
        identity.subject_id is None <==> identity@.subject_id is None,
        identity.subject_id == Some(subject) ==> identity@.subject_id == Some(subject@),
        identity.auth_provider is None <==> identity@.auth_provider is None,
        identity.auth_provider == Some(provider) ==> identity@.auth_provider == Some(provider@),
        identity.issuer is None <==> identity@.issuer is None,
        identity.issuer == Some(issuer) ==> identity@.issuer == Some(issuer@),
        identity@.roles.len() == identity.roles@.len(),
        0 <= i < identity.roles@.len() ==> identity@.roles[i] == identity.roles@[i]@,
        identity@.groups.len() == identity.groups@.len(),
        0 <= i < identity.groups@.len() ==> identity@.groups[i] == identity.groups@[i]@,
        identity@.scopes.len() == identity.scopes@.len(),
        0 <= i < identity.scopes@.len() ==> identity@.scopes[i] == identity.scopes@[i]@,
        identity@.attributes == identity.attributes@,
{
}

/// The text of a resolution is of the same kind as the resolution, and that of each part.
pub proof fn law_view_of_a_resolution(r: IdentityResolution)
    ensures
        r matches IdentityResolution::Resolved { identity } ==> r@ == (ResolutionView::Resolved {
            identity: identity@,
        }),
        r is NoIdentity ==> r@ is NoIdentity,
        r matches IdentityResolution::Invalid { reason, response_headers } ==> (
        r@ matches ResolutionView::Invalid { reason: words, response_headers: more } && words
            == reason@ && more.len() == response_headers@.len()),
{
}

} // verus!
