//! What holds of every configuration.
use crate::config;
use crate::config::{ConfigError, ConfigView, IdentityMetadata, MtlsConfig, Source, SourceView};
use crate::text;
use crate::text_laws;
use vstd::prelude::*;

verus! {

/// A configuration may be used exactly when it has a source, the name of the header of
/// each source is not white space alone, and the trust level is `verified` or
/// `header_asserted`.
pub proof fn law_when_a_configuration_may_be_used(c: ConfigView)
    ensures
        c.is_valid() <==> {
            &&& c.sources.len() > 0
            &&& forall|i: int|
                0 <= i < c.sources.len() ==> !text_laws::is_blank(
                    (#[trigger] c.sources[i]).header_name(),
                )
            &&& c.trust_level == "verified"@ || c.trust_level == "header_asserted"@
        },
{
    assert forall|i: int| 0 <= i < c.sources.len() implies (#[trigger] c.sources[i]).is_blank()
        == text_laws::is_blank(c.sources[i].header_name()) by {
        text_laws::law_trimming_leaves_nothing_of_white_space_alone(c.sources[i].header_name());
    }
}

/// Why a configuration may not be used: it has no source, or a source is the first whose
/// header has no name, or every source names one and the trust level is neither of the
/// two.
pub proof fn law_why_a_configuration_may_not_be_used(c: ConfigView, index: usize, value: String)
    ensures
        c.is_refused_with(ConfigError::EmptySources) <==> c.sources.len() == 0,
        c.is_refused_with(ConfigError::EmptySourceHeader { index }) <==> {
            &&& index < c.sources.len()
            &&& text_laws::is_blank(c.sources[index as int].header_name())
            &&& forall|i: int|
                0 <= i < index ==> !text_laws::is_blank((#[trigger] c.sources[i]).header_name())
        },
        c.is_refused_with(ConfigError::InvalidTrustLevel { value }) <==> {
            &&& c.sources.len() > 0
            &&& forall|i: int|
                0 <= i < c.sources.len() ==> !text_laws::is_blank(
                    (#[trigger] c.sources[i]).header_name(),
                )
            &&& c.trust_level != "verified"@
            &&& c.trust_level != "header_asserted"@
            &&& value@ == c.trust_level
        },
{
    assert forall|i: int| 0 <= i < c.sources.len() implies (#[trigger] c.sources[i]).is_blank()
        == text_laws::is_blank(c.sources[i].header_name()) by {
        text_laws::law_trimming_leaves_nothing_of_white_space_alone(c.sources[i].header_name());
    }
}

/// What an error says holds the whole of what is wrong: the words of the JSON error, the
/// number of the source, or the trust level as it was given.
pub proof fn law_words_of_an_error(
    json: serde_json::Error,
    words: Seq<char>,
    index: usize,
    value: String,
)
    ensures
        config::error_words(ConfigError::InvalidJson(json), words)
            == "invalid identity.mtls config JSON: "@ + words,
        config::error_words(ConfigError::EmptySources, words)
            == "identity.mtls: `sources` must be non-empty"@,
        config::error_words(ConfigError::EmptySourceHeader { index }, words)
            == "identity.mtls: source["@ + text::decimal(index as nat) + "]: header is empty"@,
        config::error_words(ConfigError::InvalidTrustLevel { value }, words)
            == "identity.mtls: invalid trust_level `"@ + value@
            + "` (allowed: verified | header_asserted)"@,
{
}

/// The text of a configuration is that of each part: every source in its place, and
/// nothing changed.
pub proof fn law_view_of_a_configuration(c: MtlsConfig, i: int)
    ensures
        c@.sources.len() == c.sources@.len(),
        0 <= i < c.sources@.len() ==> c@.sources[i] == c.sources@[i]@,
        c@.extraction == c.extraction,
        c@.identities == c.identities@,
        c@.trust_level == c.resolution.trust_level@,
        c@.auth_provider_label == c.resolution.auth_provider_label@,
{
}

/// The text of a source is that of its header, with the rest as it is.
pub proof fn law_view_of_a_source(
    header: String,
    chain_position: config::ChainPosition,
    extraction_hint: config::ExtractionHint,
)
    ensures
        (Source::Xfcc { header, chain_position })@ == (SourceView::Xfcc {
            header: header@,
            chain_position,
        }),
        (Source::DnString { header })@ == (SourceView::DnString { header: header@ }),
        (Source::CustomHeader { header, extraction_hint })@ == (SourceView::CustomHeader {
            header: header@,
            extraction_hint,
        }),
{
}

/// The text of metadata is that of each role, group, scope and attribute.
pub proof fn law_view_of_metadata(m: IdentityMetadata, i: int)
    ensures
        m@.roles.len() == m.roles@.len(),
        0 <= i < m.roles@.len() ==> m@.roles[i] == m.roles@[i]@,
        m@.groups.len() == m.groups@.len(),
        0 <= i < m.groups@.len() ==> m@.groups[i] == m.groups@[i]@,
        m@.scopes.len() == m.scopes@.len(),
        0 <= i < m.scopes@.len() ==> m@.scopes[i] == m.scopes@[i]@,
        m@.attributes == m.attributes@,
{
}

/// Metadata that attaches nothing has no role, no group, no scope and no attribute.
pub proof fn law_no_metadata_attaches_nothing()
    ensures
        config::no_metadata().roles.len() == 0,
        config::no_metadata().groups.len() == 0,
        config::no_metadata().scopes.len() == 0,
        forall|k: Seq<char>| !#[trigger] config::no_metadata().attributes.contains_key(k),
{
}

} // verus!
