//! The identity provider: a validated configuration and a manifest.
use crate::config::{ConfigError, ExtractionMode, MtlsConfig};
use crate::resolution::{resolve, IdentityResolution, ResolutionView};
use crate::text;
use std::sync::Arc;
use vstd::prelude::*;

verus! {

/// What a plugin may be to the gateway.
#[derive(Debug, Clone, Copy, PartialEq, Eq, Structural)]
pub enum PluginClass {
    IdentityProvider,
}

/// What the plugin tells the gateway about itself.
#[derive(Debug, Clone)]
pub struct PluginManifest {
    pub id: String,
    pub version: String,
    pub name: String,
    pub plugin_class: PluginClass,
    pub protocol_version: String,
    pub license: Option<String>,
    pub required_capabilities: Vec<String>,
    pub tags: Vec<String>,
    pub provides: Vec<String>,
    pub provides_schemes: Vec<String>,
    pub module_path_prefix: String,
    pub backend_profile: Option<String>,
}

/// What is known of the plugin only when it is built.
#[derive(Debug, Clone)]
pub struct BuildInfo {
    /// The version of the package.
    pub version: String,
    /// The path of the module that the plugin is built from.
    pub module: String,
}

/// What stands before the first `::` of a module path.
pub open spec fn crate_of(path: Seq<char>) -> Seq<char>
    decreases path.len(),
{
    if path.len() >= 2 && path[0] == ':' && path[1] == ':' {
        Seq::empty()
    } else if path.len() == 0 {
        path
    } else {
        seq![path[0]] + crate_of(path.drop_first())
    }
}

/// Finds the crate that a module path starts with.
pub fn module_path_prefix(path: &str) -> (r: String)
    ensures
        r@ == crate_of(path@),
{
    let v = text::chars_of(path);
    let mut i: usize = 0;
    proof {
        assert(path@.skip(0) =~= path@);
        assert(path@.take(0) + crate_of(path@) =~= crate_of(path@));
    }
    while i < v.len() && !(v[i] == ':' && i + 1 < v.len() && v[i + 1] == ':')
        invariant
            v@ == path@,
            i <= v@.len(),
            crate_of(path@) == path@.take(i as int) + crate_of(path@.skip(i as int)),
        decreases v@.len() - i,
    {
        proof {
            let left = path@.skip(i as int);
            assert(left.drop_first() =~= path@.skip(i + 1));
            assert(path@.take(i as int) + (seq![left[0]] + crate_of(path@.skip(i + 1)))
                =~= path@.take(i + 1) + crate_of(path@.skip(i + 1)));
        }
        i += 1;
    }
    proof {
        assert(crate_of(path@) =~= path@.take(i as int));
        assert(path@.subrange(0, i as int) =~= path@.take(i as int));
    }
    path.substring_char(0, i).to_owned()
}

/// The manifest and the configuration of a plugin.
#[derive(Debug)]
pub struct Inner {
    pub manifest: PluginManifest,
    pub config: MtlsConfig,
}

/// The identity provider. Its configuration is always a valid one.
#[derive(Debug)]
pub struct MtlsIdentityPlugin {
    inner: Arc<Inner>,
}

/// Whether this is the manifest of the plugin, built from `build`. It asks for no
/// capability.
pub open spec fn is_manifest(manifest: PluginManifest, build: BuildInfo) -> bool {
    &&& manifest.id@ == "dev.mcpg.identity.mtls"@
    &&& manifest.version@ == build.version@
    &&& manifest.name@ == "mTLS Identity Resolver"@
    &&& manifest.plugin_class == PluginClass::IdentityProvider
    &&& manifest.protocol_version@ == "1.0"@
    &&& manifest.license is None
    &&& manifest.required_capabilities@.len() == 0
    &&& manifest.tags@.len() == 0
    &&& manifest.provides@.len() == 0
    &&& manifest.provides_schemes@.len() == 0
    &&& manifest.module_path_prefix@ == crate_of(build.module@)
    &&& manifest.backend_profile is None
}

impl MtlsIdentityPlugin {
    /// The manifest and the configuration.
    pub closed spec fn parts(self) -> Inner {
        *self.inner
    }

    #[verifier::type_invariant]
    pub closed spec fn config_is_valid(self) -> bool {
        self.inner.config@.is_valid()
    }

    /// Makes the plugin of what decoding its configuration's JSON gave. Where that
    /// is no valid configuration there is no plugin: an identity resolver with
    /// holes in it is a security hole.
    pub fn from_config_json(
        decoded: Result<MtlsConfig, serde_json::Error>,
        build: &BuildInfo,
    ) -> (r: Result<Self, ConfigError>)
        ensures
            match decoded {
                Err(error) => r == Err::<Self, ConfigError>(ConfigError::InvalidJson(error)),
                Ok(config) => match r {
                    Ok(plugin) => {
                        &&& config@.is_valid()
                        &&& plugin.parts().config == config
                        &&& is_manifest(plugin.parts().manifest, *build)
                    },
                    Err(error) => config@.is_refused_with(error),
                },
            },
    {
        match MtlsConfig::parse(decoded) {
            Ok(config) => Ok(Self::from_validated_config(config, build)),
            Err(error) => Err(error),
        }
    }

    /// Makes the plugin of a valid configuration.
    pub fn from_validated_config(config: MtlsConfig, build: &BuildInfo) -> (plugin: Self)
        requires
            config@.is_valid(),
        ensures
            plugin.parts().config == config,
            is_manifest(plugin.parts().manifest, *build),
    {
        let manifest = PluginManifest {
            id: "dev.mcpg.identity.mtls".to_owned(),
            version: build.version.clone(),
            name: "mTLS Identity Resolver".to_owned(),
            plugin_class: PluginClass::IdentityProvider,
            protocol_version: "1.0".to_owned(),
            license: None,
            required_capabilities: Vec::new(),
            tags: Vec::new(),
            provides: Vec::new(),
            provides_schemes: Vec::new(),
            module_path_prefix: module_path_prefix(build.module.as_str()),
            backend_profile: None,
        };
        MtlsIdentityPlugin { inner: Arc::new(Inner { manifest, config }) }
    }

    /// The manifest and the configuration, which is valid.
    pub fn inner(&self) -> (r: &Inner)
        ensures
            *r == self.parts(),
            r.config@.is_valid(),
    {
        proof {
            use_type_invariant(self);
        }
        &self.inner
    }

    /// What the plugin tells the gateway about itself.
    pub fn manifest(&self) -> (r: &PluginManifest)
        ensures
            *r == self.parts().manifest,
    {
        &self.inner().manifest
    }

    /// Resolves the caller of a request with these headers. What it resolves
    /// carries one of the two trust levels, and a subject that is a common name is
    /// not empty.
    pub fn resolve_identity(&self, headers: &[(String, String)]) -> (r: IdentityResolution)
        ensures
            r@ == crate::resolution::resolution_of(self.parts().config@, headers.deep_view()),
            r matches IdentityResolution::Resolved { identity } ==> crate::config::is_trust_level(
                identity.trust_level@,
            ),
            self.parts().config.extraction.mode == ExtractionMode::SubjectCn ==> (
            r matches IdentityResolution::Resolved { identity } ==> identity.subject_id is Some
                && identity.subject_id->0@.len() > 0),
    {
        resolve(self.inner(), headers)
    }
}

/// The word that a resolution is counted under.
pub open spec fn outcome_of(resolution: ResolutionView) -> Seq<char> {
    match resolution {
        ResolutionView::Resolved { .. } => "resolved"@,
        ResolutionView::NoIdentity => "none"@,
        ResolutionView::Invalid { .. } => "invalid"@,
    }
}

/// Gives the word that a resolution is counted under.
pub fn resolve_outcome(result: &IdentityResolution) -> (r: &'static str)
    ensures
        r@ == outcome_of(result@),
{
    match result {
        IdentityResolution::Resolved { .. } => "resolved",
        IdentityResolution::NoIdentity => "none",
        IdentityResolution::Invalid { .. } => "invalid",
    }
}

} // verus!
