//! What holds of every plugin.
use crate::plugin;
use crate::plugin::{BuildInfo, PluginClass, PluginManifest};
use crate::resolution::{IdentityView, ResolutionView};
use vstd::prelude::*;

verus! {

/// The crate that a module path starts with is what stands before its first two colons
/// in a row; a path without two colons in a row is the crate itself.
pub proof fn law_crate_stands_before_the_first_colons(path: Seq<char>, i: int)
    requires
        0 <= i <= path.len(),
        forall|j: int|
            0 <= j < i && j + 1 < path.len() ==> !(#[trigger] path[j] == ':' && path[j + 1] == ':'),
        i < path.len() ==> i + 1 < path.len() && path[i] == ':' && path[i + 1] == ':',
    ensures
        plugin::crate_of(path) == path.take(i),
    decreases path.len(),
{
    if i > 0 {
        let rest = path.drop_first();
        if path.len() > 1 {
            assert(!(path[0] == ':' && path[1] == ':'));
        }
        assert forall|j: int| 0 <= j < i - 1 && j + 1 < rest.len() implies !(#[trigger] rest[j]
            == ':' && rest[j + 1] == ':') by {
            assert(rest[j] == path[j + 1]);
        }
        law_crate_stands_before_the_first_colons(rest, i - 1);
        assert(seq![path[0]] + rest.take(i - 1) =~= path.take(i));
    } else {
        assert(path.take(0) =~= Seq::<char>::empty());
    }
}

/// The manifest names the plugin, carries the version that it was built with, and asks
/// the gateway for nothing: no capability, no tag, nothing provided.
pub proof fn law_manifest_names_the_plugin_and_asks_for_nothing(
    manifest: PluginManifest,
    build: BuildInfo,
)
    requires
        plugin::is_manifest(manifest, build),
    ensures
        manifest.id@ == "dev.mcpg.identity.mtls"@,
        manifest.version@ == build.version@,
        manifest.name@ == "mTLS Identity Resolver"@,
        manifest.plugin_class == PluginClass::IdentityProvider,
        manifest.protocol_version@ == "1.0"@,
        manifest.license is None,
        manifest.required_capabilities@.len() == 0,
        manifest.tags@.len() == 0,
        manifest.provides@.len() == 0,
        manifest.provides_schemes@.len() == 0,
        manifest.module_path_prefix@ == plugin::crate_of(build.module@),
        manifest.backend_profile is None,
{
}

/// Each kind of resolution is counted under its own word.
pub proof fn law_each_kind_is_counted_under_its_word(
    identity: IdentityView,
    reason: Seq<char>,
    response_headers: Seq<(Seq<char>, Seq<char>)>,
)
    ensures
        plugin::outcome_of(ResolutionView::Resolved { identity }) == "resolved"@,
        plugin::outcome_of(ResolutionView::NoIdentity) == "none"@,
        plugin::outcome_of(ResolutionView::Invalid { reason, response_headers }) == "invalid"@,
{
}

} // verus!
