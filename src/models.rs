use crate::capabilities::{
    alias_entries, feature_entries, get_aliases, get_extensions, get_features, is_extension_collection,
};
use crate::header_version::{get_header_version, header_version, ConfigurationError};
use crate::name_index::name_index_entries;
use crate::provenance::{
    capability_pass, definition_entries, get_types, provenance, provenance_view, ProvenanceEntry,
};
use crate::registry::Registry;
use indexmap::IndexMap;
use vstd::prelude::*;

verus! {

/// The four models that code emitters consume.
pub struct Models {
    /// Retained extensions, name to position in the registry, in extension order.
    pub extensions: IndexMap<String, usize>,
    /// Features, name to position in the registry, in document order.
    pub features: IndexMap<String, usize>,
    /// Reachable canonical types with their providers, in definition order.
    pub types: Vec<ProvenanceEntry>,
    pub header_version: u16,
}

/// `m` holds the models of `registry` for `platform`.
pub open spec fn is_extraction_of(registry: Registry, platform: Seq<char>, m: Models) -> bool {
    let ts = registry.types@;
    &&& header_version(ts) == Ok::<u16, ConfigurationError>(m.header_version)
    &&& name_index_entries(m.features) == feature_entries(registry.features@)
    &&& is_extension_collection(registry.extensions@, platform, registry.extensions@.len() as int, name_index_entries(m.extensions))
    &&& m.types@.map_values(|e: ProvenanceEntry| provenance_view(e)) == provenance(
        ts,
        alias_entries(ts),
        capability_pass(registry, name_index_entries(m.features), name_index_entries(m.extensions)),
        definition_entries(ts),
    )
}

/// Runs every stage on `registry` for `platform`: features, the alias map,
/// the extension collection, the header version, then the provenance of
/// types. Fails, with nothing built, when the header version is missing or
/// malformed.
pub fn extract(registry: &Registry, platform: &str) -> (r: Result<Models, ConfigurationError>)
    ensures
        r is Err <==> header_version(registry.types@) is Err,
        r matches Err(e) ==> header_version(registry.types@) == Err::<u16, ConfigurationError>(e),
        r matches Ok(m) ==> is_extraction_of(*registry, platform@, m),
{
    let header_version = match get_header_version(registry) {
        Ok(v) => v,
        Err(e) => return Err(e),
    };
    let aliases = get_aliases(registry);
    let features = get_features(registry);
    let extensions = get_extensions(registry, platform);
    proof {
        let ee = name_index_entries(extensions);
        assert forall|i: int| 0 <= i < ee.len() implies (#[trigger] ee[i]).1 < registry.extensions@.len() by {
            assert(crate::capabilities::names_last_retained(registry.extensions@, platform@, registry.extensions@.len() as int, ee[i]));
        }
    }
    let types = get_types(registry, &aliases, &features, &extensions);
    Ok(Models { extensions, features, types, header_version })
}

} // verus!
