//! What the operator configures: where to look for certificate details, how to
//! name the subject, and what goes with a subject.
use crate::string_map::StringMap;
use crate::text;
use vstd::prelude::*;

verus! {

/// The whole configuration.
#[derive(Debug, Clone)]
pub struct MtlsConfig {
    /// Sources walked in priority order. The first that yields a subject wins.
    pub sources: Vec<Source>,
    pub extraction: ExtractionConfig,
    /// Optional metadata, by canonicalised subject.
    pub identities: StringMap<IdentityMetadata>,
    pub resolution: ResolutionConfig,
}

/// A header to read, and how to read it.
#[derive(Debug, Clone)]
pub enum Source {
    /// Envoy / Istio `X-Forwarded-Client-Cert`.
    Xfcc { header: String, chain_position: ChainPosition },
    /// nginx-style `X-SSL-Client-S-DN`: the value is a single DN.
    DnString { header: String },
    /// A header of a cloud load balancer or of the operator's own.
    CustomHeader { header: String, extraction_hint: ExtractionHint },
}

/// The hop of a chain that counts.
#[derive(Debug, Clone, Copy, PartialEq, Eq, Structural)]
pub enum ChainPosition {
    First,
    Last,
}

impl Default for ChainPosition {
    fn default() -> (r: Self)
        ensures
            r == ChainPosition::First,
    {
        ChainPosition::First
    }
}

/// What a custom header holds.
#[derive(Debug, Clone, Copy, PartialEq, Eq, Structural)]
pub enum ExtractionHint {
    /// A subject DN.
    Dn,
    /// A SHA-256 fingerprint in hexadecimal; colons are fine.
    Fingerprint,
}

/// How a subject is made of certificate details.
#[derive(Debug, Clone)]
pub struct ExtractionConfig {
    pub mode: ExtractionMode,
    /// Applies to `ExtractionMode::SubjectCn`, which lower-cases unless this is set.
    pub case_sensitive: bool,
}

/// What names the subject.
#[derive(Debug, Clone, Copy, PartialEq, Eq, Structural)]
pub enum ExtractionMode {
    /// The value of the first `CN=` in the subject DN.
    SubjectCn,
    /// The whole subject DN, its white space normalised.
    SubjectDn,
    /// The SHA-256 fingerprint: hexadecimal, lower case, no colons.
    Fingerprint,
}

/// What is stamped on a resolved identity.
#[derive(Debug, Clone)]
pub struct ResolutionConfig {
    pub trust_level: String,
    pub auth_provider_label: String,
}

/// The trust level of an identity that comes from headers, unless the operator
/// says otherwise: a client can forge a header where no trusted proxy strips it.
pub fn default_trust_level() -> (r: String)
    ensures
        r@ == "header_asserted"@,
{
    "header_asserted".to_owned()
}

/// The label of this identity provider, unless the operator says otherwise.
pub fn default_auth_provider_label() -> (r: String)
    ensures
        r@ == "mtls"@,
{
    "mtls".to_owned()
}

impl Default for ResolutionConfig {
    fn default() -> (r: Self)
        ensures
            r.trust_level@ == "header_asserted"@,
            r.auth_provider_label@ == "mtls"@,
    {
        ResolutionConfig {
            trust_level: default_trust_level(),
            auth_provider_label: default_auth_provider_label(),
        }
    }
}

/// What the operator attaches to a subject.
#[derive(Debug, Clone)]
pub struct IdentityMetadata {
    pub roles: Vec<String>,
    pub groups: Vec<String>,
    pub scopes: Vec<String>,
    pub attributes: StringMap<String>,
}

impl Default for IdentityMetadata {
    fn default() -> (r: Self)
        ensures
            r@ == no_metadata(),
    {
        let r = IdentityMetadata {
            roles: Vec::new(),
            groups: Vec::new(),
            scopes: Vec::new(),
            attributes: StringMap::new(),
        };
        assert(r.roles.deep_view() =~= Seq::<Seq<char>>::empty());
        assert(r.groups.deep_view() =~= Seq::<Seq<char>>::empty());
        assert(r.scopes.deep_view() =~= Seq::<Seq<char>>::empty());
        r
    }
}

/// The text of an `IdentityMetadata`.
pub struct MetadataView {
    pub roles: Seq<Seq<char>>,
    pub groups: Seq<Seq<char>>,
    pub scopes: Seq<Seq<char>>,
    pub attributes: Map<Seq<char>, Seq<char>>,
}

/// Metadata that attaches nothing.
pub open spec fn no_metadata() -> MetadataView {
    MetadataView {
        roles: Seq::empty(),
        groups: Seq::empty(),
        scopes: Seq::empty(),
        attributes: Map::empty(),
    }
}

impl View for IdentityMetadata {
    type V = MetadataView;

    open spec fn view(&self) -> MetadataView {
        MetadataView {
            roles: self.roles.deep_view(),
            groups: self.groups.deep_view(),
            scopes: self.scopes.deep_view(),
            attributes: self.attributes@,
        }
    }
}

/// The text of a `Source`.
pub enum SourceView {
    Xfcc { header: Seq<char>, chain_position: ChainPosition },
    DnString { header: Seq<char> },
    CustomHeader { header: Seq<char>, extraction_hint: ExtractionHint },
}

impl SourceView {
    /// The name of the header that the source reads.
    pub open spec fn header_name(self) -> Seq<char> {
        match self {
            SourceView::Xfcc { header, .. } => header,
            SourceView::DnString { header } => header,
            SourceView::CustomHeader { header, .. } => header,
        }
    }

    /// Whether the header's name is nothing but white space.
    pub open spec fn is_blank(self) -> bool {
        text::trimmed(self.header_name()).len() == 0
    }
}

impl View for Source {
    type V = SourceView;

    open spec fn view(&self) -> SourceView {
        match self {
            Source::Xfcc { header, chain_position } => SourceView::Xfcc {
                header: header@,
                chain_position: *chain_position,
            },
            Source::DnString { header } => SourceView::DnString { header: header@ },
            Source::CustomHeader { header, extraction_hint } => SourceView::CustomHeader {
                header: header@,
                extraction_hint: *extraction_hint,
            },
        }
    }
}

/// The text of an `MtlsConfig`.
pub struct ConfigView {
    pub sources: Seq<SourceView>,
    pub extraction: ExtractionConfig,
    pub identities: Map<Seq<char>, MetadataView>,
    pub trust_level: Seq<char>,
    pub auth_provider_label: Seq<char>,
}

impl View for MtlsConfig {
    type V = ConfigView;

    open spec fn view(&self) -> ConfigView {
        ConfigView {
            sources: self.sources@.map_values(|s: Source| s@),
            extraction: self.extraction,
            identities: self.identities@,
            trust_level: self.resolution.trust_level@,
            auth_provider_label: self.resolution.auth_provider_label@,
        }
    }
}

/// The two trust levels there are.
pub open spec fn is_trust_level(level: Seq<char>) -> bool {
    level == "verified"@ || level == "header_asserted"@
}

impl ConfigView {
    /// Whether the configuration may be used: it has a source, each source names
    /// a header, and the trust level is one of the two.
    pub open spec fn is_valid(self) -> bool {
        &&& self.sources.len() > 0
        &&& forall|i: int| 0 <= i < self.sources.len() ==> !(#[trigger] self.sources[i]).is_blank()
        &&& is_trust_level(self.trust_level)
    }

    /// Whether `error` is what is wrong with the configuration. Sources are
    /// looked at first, in their order, and the trust level last.
    pub open spec fn is_refused_with(self, error: ConfigError) -> bool {
        match error {
            ConfigError::InvalidJson(_) => false,
            ConfigError::EmptySources => self.sources.len() == 0,
            ConfigError::EmptySourceHeader { index } => {
                &&& index < self.sources.len()
                &&& self.sources[index as int].is_blank()
                &&& forall|i: int| 0 <= i < index ==> !(#[trigger] self.sources[i]).is_blank()
            },
            ConfigError::InvalidTrustLevel { value } => {
                &&& self.sources.len() > 0
                &&& forall|i: int|
                    0 <= i < self.sources.len() ==> !(#[trigger] self.sources[i]).is_blank()
                &&& !is_trust_level(self.trust_level)
                &&& value@ == self.trust_level
            },
        }
    }
}

/// `serde_json::Error`: why a text is not the JSON of a configuration. It is
/// carried along and put into words; nothing looks inside.
#[verifier::external_type_specification]
#[verifier::external_body]
pub struct ExJsonError(serde_json::Error);

/// Why a configuration is refused.
#[derive(Debug)]
pub enum ConfigError {
    /// The text is not the JSON of a configuration.
    InvalidJson(serde_json::Error),
    /// There is no source.
    EmptySources,
    /// The source at `index` names no header.
    EmptySourceHeader { index: usize },
    /// The trust level is not one of the two.
    InvalidTrustLevel { value: String },
}

impl From<serde_json::Error> for ConfigError {
    fn from(error: serde_json::Error) -> (r: Self) {
        ConfigError::InvalidJson(error)
    }
}

impl vstd::std_specs::convert::FromSpecImpl<serde_json::Error> for ConfigError {
    open spec fn obeys_from_spec() -> bool {
        true
    }

    open spec fn from_spec(error: serde_json::Error) -> Self {
        ConfigError::InvalidJson(error)
    }
}

/// An error in words; `json` is what an error of the JSON says of itself.
pub open spec fn error_words(error: ConfigError, json: Seq<char>) -> Seq<char> {
    match error {
        ConfigError::InvalidJson(_) => "invalid identity.mtls config JSON: "@ + json,
        ConfigError::EmptySources => "identity.mtls: `sources` must be non-empty"@,
        ConfigError::EmptySourceHeader { index } => "identity.mtls: source["@ + text::decimal(
            index as nat,
        ) + "]: header is empty"@,
        ConfigError::InvalidTrustLevel { value } => "identity.mtls: invalid trust_level `"@ + value@
            + "` (allowed: verified | header_asserted)"@,
    }
}

impl ConfigError {
    /// The error in words.
    pub fn message(&self) -> (r: String)
        ensures
            match self {
                ConfigError::InvalidJson(error) => exists|words: String|
                    #![auto]
                    vstd::string::to_string_from_display_ensures(error, words) && r@
                        == "invalid identity.mtls config JSON: "@ + words@,
                ConfigError::EmptySources => r@ == "identity.mtls: `sources` must be non-empty"@,
                ConfigError::EmptySourceHeader { index } => r@ == "identity.mtls: source["@
                    + text::decimal(*index as nat) + "]: header is empty"@,
                ConfigError::InvalidTrustLevel { value } => r@
                    == "identity.mtls: invalid trust_level `"@ + value@
                    + "` (allowed: verified | header_asserted)"@,
            },
            self !is InvalidJson ==> r@ == error_words(*self, Seq::empty()),
            self matches ConfigError::InvalidJson(error) ==> exists|words: String|
                #![auto]
                vstd::string::to_string_from_display_ensures(error, words) && r@ == error_words(
                    *self,
                    words@,
                ),
    {
        match self {
            ConfigError::InvalidJson(error) => {
                let words = error.to_string();
                let mut r = "invalid identity.mtls config JSON: ".to_owned();
                r.append(words.as_str());
                r
            },
            ConfigError::EmptySources => "identity.mtls: `sources` must be non-empty".to_owned(),
            ConfigError::EmptySourceHeader { index } => {
                let mut r = "identity.mtls: source[".to_owned();
                text::push_decimal(&mut r, *index);
                r.append("]: header is empty");
                r
            },
            ConfigError::InvalidTrustLevel { value } => {
                let mut r = "identity.mtls: invalid trust_level `".to_owned();
                r.append(value.as_str());
                r.append("` (allowed: verified | header_asserted)");
                r
            },
        }
    }
}

impl Source {
    /// The name of the header that the source reads.
    pub fn header_name(&self) -> (r: &String)
        ensures
            r@ == self@.header_name(),
    {
        match self {
            Source::Xfcc { header, .. } => header,
            Source::DnString { header } => header,
            Source::CustomHeader { header, .. } => header,
        }
    }
}

impl ResolutionConfig {
    /// Whether identities from headers are stamped as fully trusted, which only a
    /// trusted proxy in front of the gateway makes safe.
    pub fn is_verified(&self) -> (r: bool)
        ensures
            r == (self.trust_level@ == "verified"@),
    {
        text::same_text(self.trust_level.as_str(), "verified")
    }
}

impl MtlsConfig {
    /// Takes what decoding a configuration's JSON gave, and accepts it where it
    /// may be used.
    pub fn parse(decoded: Result<MtlsConfig, serde_json::Error>) -> (r: Result<
        MtlsConfig,
        ConfigError,
    >)
        ensures
            match decoded {
                Err(error) => r == Err::<MtlsConfig, ConfigError>(ConfigError::InvalidJson(error)),
                Ok(config) => match r {
                    Ok(accepted) => accepted == config && config@.is_valid(),
                    Err(error) => config@.is_refused_with(error),
                },
            },
    {
        match decoded {
            Err(error) => Err(ConfigError::from(error)),
            Ok(config) => match config.validate() {
                Ok(()) => Ok(config),
                Err(error) => Err(error),
            },
        }
    }

    /// Tells whether the configuration may be used, and if not, why.
    pub fn validate(&self) -> (r: Result<(), ConfigError>)
        ensures
            match r {
                Ok(_) => self@.is_valid(),
                Err(error) => self@.is_refused_with(error),
            },
    {
        if self.sources.is_empty() {
            return Err(ConfigError::EmptySources);
        }
        let mut index: usize = 0;
        while index < self.sources.len()
            invariant
                index <= self.sources@.len(),
                forall|i: int| 0 <= i < index ==> !(#[trigger] self@.sources[i]).is_blank(),
            decreases self.sources@.len() - index,
        {
            if self.sources[index].header_name().as_str().trim().is_empty() {
                return Err(ConfigError::EmptySourceHeader { index });
            }
            index += 1;
        }
        let level = self.resolution.trust_level.as_str();
        if self.resolution.is_verified() || text::same_text(level, "header_asserted") {
            Ok(())
        } else {
            Err(ConfigError::InvalidTrustLevel { value: level.to_owned() })
        }
    }
}

} // verus!
