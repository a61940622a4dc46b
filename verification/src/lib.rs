//! Caller identity from the client-certificate details that a TLS terminator
//! forwards in request headers.
//!
//! A request's headers are read by the configured sources, in their order
//! ([`source`], [`xfcc`]). The details that a source gives name a subject
//! ([`subject`]). The first subject is the caller ([`resolution`]), and carries
//! what the operator attached to it ([`config`]). [`plugin`] is the provider as
//! the gateway sees it. The modules whose names end in `_laws` hold what is
//! proved of all requests and configurations.
pub mod config;
pub mod config_laws;
pub mod plugin;
pub mod plugin_laws;
pub mod resolution;
pub mod resolution_laws;
pub mod source;
pub mod source_laws;
pub mod string_map;
pub mod subject;
pub mod subject_laws;
pub mod text;
pub mod text_laws;
pub mod xfcc;
pub mod xfcc_laws;

pub use crate::config::{
    default_auth_provider_label, default_trust_level, ChainPosition, ConfigError, ExtractionConfig,
    ExtractionHint, ExtractionMode, IdentityMetadata, MtlsConfig, ResolutionConfig, Source,
};
pub use crate::plugin::{
    resolve_outcome, BuildInfo, Inner, MtlsIdentityPlugin, PluginClass, PluginManifest,
};
pub use crate::resolution::{identity_for, resolve, IdentityResolution, PluginIdentity};
pub use crate::source::{lookup_header, parse_source, ParsedCertMetadata};
pub use crate::string_map::StringMap;
pub use crate::subject::{common_name, extract_subject, fingerprint_subject, normalise_dn};
pub use crate::xfcc::{parse_xfcc_hop, split_xfcc_hops};
