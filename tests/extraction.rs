use autogen::{
    extension_compare, extract, get_aliases, get_extensions, get_features, get_header_version, get_types,
    parse_header_version, str_compare, str_starts_with, ConfigurationError, Extension, Feature, Models,
    ProvenanceEntry, Registry, TextOrder, TypeDecl, TypePayload,
};

fn s(x: &str) -> String {
    x.to_string()
}

fn definition(name: &str) -> TypeDecl {
    TypeDecl::Definition { name: Some(s(name)), payload: TypePayload::Other }
}

fn alias(name: &str, target: &str) -> TypeDecl {
    TypeDecl::Alias { name: s(name), target: s(target) }
}

fn version_decl(text: &str) -> TypeDecl {
    TypeDecl::Definition {
        name: None,
        payload: TypePayload::Code { text: s(text), markup_names: vec![s("VK_HEADER_VERSION")] },
    }
}

fn feature(name: &str, required: &[&str]) -> Feature {
    Feature { name: s(name), required_types: required.iter().map(|r| s(r)).collect() }
}

fn extension(name: &str, supported: Option<&str>, obsoleted_by: Option<&str>, required: &[&str]) -> Extension {
    Extension {
        name: s(name),
        supported: supported.map(s),
        obsoleted_by: obsoleted_by.map(s),
        required_types: required.iter().map(|r| s(r)).collect(),
    }
}

fn registry(types: Vec<TypeDecl>, features: Vec<Feature>, extensions: Vec<Extension>) -> Registry {
    Registry { types, features, extensions }
}

fn extension_names(m: &indexmap::IndexMap<String, usize>) -> Vec<String> {
    m.keys().cloned().collect()
}

fn provenance_of(r: &Registry) -> Vec<(String, usize, Vec<String>)> {
    let aliases = get_aliases(r);
    let features = get_features(r);
    let extensions = get_extensions(r, "vulkan");
    let types: Vec<ProvenanceEntry> = get_types(r, &aliases, &features, &extensions);
    types.into_iter().map(|e| (e.name, e.type_index, e.providers)).collect()
}

#[test]
fn feature_requires_canonical_type() {
    let r = registry(vec![definition("Instance")], vec![feature("CORE_1_0", &["Instance"])], vec![]);
    assert_eq!(provenance_of(&r), vec![(s("Instance"), 0, vec![s("CORE_1_0")])]);
}

#[test]
fn alias_requirement_lands_on_canonical_type() {
    let r = registry(
        vec![definition("SwapchainKHR"), alias("SwapchainKHR_old", "SwapchainKHR")],
        vec![],
        vec![extension("KHR_swapchain", Some("vulkan"), None, &["SwapchainKHR_old"])],
    );
    let p = provenance_of(&r);
    assert_eq!(p, vec![(s("SwapchainKHR"), 0, vec![s("KHR_swapchain")])]);
    assert!(p.iter().all(|e| e.0 != "SwapchainKHR_old"));
}

#[test]
fn khronos_extension_precedes_multi_vendor() {
    let r = registry(
        vec![],
        vec![],
        vec![
            extension("VK_EXT_foo", Some("vulkan"), None, &[]),
            extension("VK_KHR_bar", Some("vulkan"), None, &[]),
        ],
    );
    assert_eq!(extension_names(&get_extensions(&r, "vulkan")), vec![s("VK_KHR_bar"), s("VK_EXT_foo")]);
}

#[test]
fn obsoleted_extension_is_excluded() {
    let r = registry(
        vec![definition("A")],
        vec![],
        vec![
            extension("VK_KHR_old", Some("vulkan"), Some("VK_KHR_new"), &["A"]),
            extension("VK_KHR_new", Some("vulkan"), None, &[]),
        ],
    );
    assert_eq!(extension_names(&get_extensions(&r, "vulkan")), vec![s("VK_KHR_new")]);
    assert_eq!(provenance_of(&r), vec![]);
}

#[test]
fn unreferenced_type_is_absent() {
    let r = registry(
        vec![definition("Widget"), definition("Instance")],
        vec![feature("CORE_1_0", &["Instance"])],
        vec![],
    );
    assert_eq!(provenance_of(&r), vec![(s("Instance"), 1, vec![s("CORE_1_0")])]);
}

#[test]
fn header_version_from_define() {
    assert_eq!(parse_header_version("#define HEADER_VERSION 213"), Ok(213));
    let r = registry(vec![definition("A"), version_decl("#define VK_HEADER_VERSION 213")], vec![], vec![]);
    assert_eq!(get_header_version(&r), Ok(213));
}

#[test]
fn header_version_rejects_non_integer_token() {
    assert_eq!(parse_header_version("#define HEADER_VERSION abc"), Err(ConfigurationError::MalformedHeaderVersion));
    assert_eq!(parse_header_version("213"), Err(ConfigurationError::MalformedHeaderVersion));
    assert_eq!(parse_header_version("x "), Err(ConfigurationError::MalformedHeaderVersion));
    assert_eq!(parse_header_version("x +"), Err(ConfigurationError::MalformedHeaderVersion));
    assert_eq!(parse_header_version("x -1"), Err(ConfigurationError::MalformedHeaderVersion));
    assert_eq!(parse_header_version("x 65536"), Err(ConfigurationError::MalformedHeaderVersion));
    assert_eq!(parse_header_version("x 65535"), Ok(65535));
    assert_eq!(parse_header_version("x +0042"), Ok(42));
    assert_eq!(parse_header_version("a b 7"), Ok(7));
}

#[test]
fn header_version_missing_marker() {
    let r = registry(vec![definition("A")], vec![], vec![]);
    assert_eq!(get_header_version(&r), Err(ConfigurationError::MissingHeaderVersion));
    assert!(matches!(extract(&r, "vulkan"), Err(ConfigurationError::MissingHeaderVersion)));
}

#[test]
fn header_version_requires_single_marker() {
    let r = registry(vec![version_decl("x 213"), version_decl("x 5")], vec![], vec![]);
    assert_eq!(get_header_version(&r), Err(ConfigurationError::DuplicateHeaderVersion));
    assert!(matches!(extract(&r, "vulkan"), Err(ConfigurationError::DuplicateHeaderVersion)));
}

#[test]
fn header_version_ignores_unmarked_code() {
    let plain = TypeDecl::Definition {
        name: None,
        payload: TypePayload::Code { text: s("x 9"), markup_names: vec![s("OTHER")] },
    };
    let r = registry(vec![plain, version_decl("x 5")], vec![], vec![]);
    assert_eq!(get_header_version(&r), Ok(5));
}

#[test]
fn error_messages_name_the_invariant() {
    assert_eq!(ConfigurationError::MissingDocument.message(), "the registry document is missing or unreadable");
    assert_eq!(
        ConfigurationError::MissingHeaderVersion.message(),
        "no type declaration carries the VK_HEADER_VERSION marker"
    );
    assert_eq!(
        ConfigurationError::DuplicateHeaderVersion.message(),
        "more than one type declaration carries the VK_HEADER_VERSION marker"
    );
    assert_eq!(
        ConfigurationError::MalformedHeaderVersion.message(),
        "the VK_HEADER_VERSION payload does not end in an unsigned 16-bit integer"
    );
}

#[test]
fn extension_retained_only_when_supported_and_current() {
    let r = registry(
        vec![],
        vec![],
        vec![
            extension("VK_KHR_a", Some("vulkan"), None, &[]),
            extension("VK_KHR_b", Some("disabled"), None, &[]),
            extension("VK_KHR_c", None, None, &[]),
            extension("VK_KHR_d", Some("vulkan"), Some("VK_KHR_a"), &[]),
            extension("VK_KHR_e", Some("vulkansc"), None, &[]),
        ],
    );
    assert_eq!(extension_names(&get_extensions(&r, "vulkan")), vec![s("VK_KHR_a")]);
    assert_eq!(extension_names(&get_extensions(&r, "vulkansc")), vec![s("VK_KHR_e")]);
}

#[test]
fn extension_order_by_tier_then_name() {
    let names = ["VK_NV_x", "VK_EXT_b", "VK_KHR_z", "VK_EXT_a", "VK_AMD_y", "VK_KHR_a", "KHR_plain"];
    let exts = names.iter().map(|n| extension(n, Some("vulkan"), None, &[])).collect();
    let r = registry(vec![], vec![], exts);
    let m = get_extensions(&r, "vulkan");
    assert_eq!(
        extension_names(&m),
        vec![s("VK_KHR_a"), s("VK_KHR_z"), s("VK_EXT_a"), s("VK_EXT_b"), s("KHR_plain"), s("VK_AMD_y"), s("VK_NV_x")]
    );
    assert_eq!(m.get("VK_KHR_a"), Some(&5));
    assert_eq!(m.get("VK_NV_x"), Some(&0));
}

#[test]
fn duplicate_extension_name_keeps_last() {
    let r = registry(
        vec![],
        vec![],
        vec![
            extension("VK_KHR_a", Some("vulkan"), None, &[]),
            extension("VK_EXT_b", Some("vulkan"), None, &[]),
            extension("VK_KHR_a", Some("vulkan"), None, &[]),
            extension("VK_KHR_a", Some("other"), None, &[]),
        ],
    );
    let m = get_extensions(&r, "vulkan");
    assert_eq!(extension_names(&m), vec![s("VK_KHR_a"), s("VK_EXT_b")]);
    assert_eq!(m.get("VK_KHR_a"), Some(&2));
}

#[test]
fn features_keep_document_order() {
    let r = registry(
        vec![],
        vec![feature("VK_VERSION_1_1", &[]), feature("VK_VERSION_1_0", &[]), feature("VK_VERSION_1_1", &[])],
        vec![],
    );
    let m = get_features(&r);
    assert_eq!(extension_names(&m), vec![s("VK_VERSION_1_1"), s("VK_VERSION_1_0")]);
    assert_eq!(m.get("VK_VERSION_1_1"), Some(&2));
    assert_eq!(m.get("VK_VERSION_1_0"), Some(&1));
}

#[test]
fn aliases_map_to_declarations() {
    let r = registry(vec![definition("B"), alias("A", "B"), alias("C", "B"), alias("A", "D")], vec![], vec![]);
    let m = get_aliases(&r);
    assert_eq!(extension_names(&m), vec![s("A"), s("C")]);
    assert_eq!(m.get("A"), Some(&3));
    assert_eq!(m.get("C"), Some(&2));
    assert_eq!(m.get("B"), None);
}

#[test]
fn providers_in_pass_order_without_duplicates() {
    let r = registry(
        vec![definition("X"), alias("Y", "X"), definition("Z")],
        vec![feature("VK_VERSION_1_0", &["X", "Y", "X"]), feature("VK_VERSION_1_1", &["Z"])],
        vec![
            extension("VK_EXT_e", Some("vulkan"), None, &["Y", "Z"]),
            extension("VK_KHR_k", Some("vulkan"), None, &["X", "Unknown"]),
        ],
    );
    assert_eq!(
        provenance_of(&r),
        vec![
            (s("X"), 0, vec![s("VK_VERSION_1_0"), s("VK_KHR_k"), s("VK_EXT_e")]),
            (s("Z"), 2, vec![s("VK_VERSION_1_1"), s("VK_EXT_e")]),
        ]
    );
}

#[test]
fn alias_resolution_takes_one_hop() {
    let r = registry(
        vec![definition("C"), alias("B", "C"), alias("A", "B"), definition("B2")],
        vec![feature("F", &["A"])],
        vec![],
    );
    assert_eq!(provenance_of(&r), vec![]);
}

fn models_summary(m: &Models) -> (Vec<(String, usize)>, Vec<(String, usize)>, Vec<(String, usize, Vec<String>)>, u16) {
    (
        m.extensions.iter().map(|(k, v)| (k.clone(), *v)).collect(),
        m.features.iter().map(|(k, v)| (k.clone(), *v)).collect(),
        m.types.iter().map(|e| (e.name.clone(), e.type_index, e.providers.clone())).collect(),
        m.header_version,
    )
}

fn sample_registry() -> Registry {
    registry(
        vec![definition("Instance"), alias("InstanceOld", "Instance"), definition("Surface"), version_decl("#define VK_HEADER_VERSION 213")],
        vec![feature("VK_VERSION_1_0", &["Instance"])],
        vec![
            extension("VK_KHR_surface", Some("vulkan"), None, &["Surface", "InstanceOld"]),
            extension("VK_EXT_debug", Some("vulkan"), None, &[]),
        ],
    )
}

#[test]
fn extraction_is_deterministic() {
    let a = extract(&sample_registry(), "vulkan").unwrap();
    let b = extract(&sample_registry(), "vulkan").unwrap();
    assert_eq!(models_summary(&a), models_summary(&b));
    assert_eq!(
        models_summary(&a),
        (
            vec![(s("VK_KHR_surface"), 0), (s("VK_EXT_debug"), 1)],
            vec![(s("VK_VERSION_1_0"), 0)],
            vec![
                (s("Instance"), 0, vec![s("VK_VERSION_1_0"), s("VK_KHR_surface")]),
                (s("Surface"), 2, vec![s("VK_KHR_surface")]),
            ],
            213,
        )
    );
}

#[test]
fn text_helpers() {
    assert!(matches!(str_compare("abc", "abd"), TextOrder::Less));
    assert!(matches!(str_compare("ab", "abc"), TextOrder::Less));
    assert!(matches!(str_compare("b", "abc"), TextOrder::Greater));
    assert!(matches!(str_compare("é", "e"), TextOrder::Greater));
    assert!(matches!(str_compare("x", "x"), TextOrder::Equal));
    assert!(str_starts_with("VK_KHR_x", "VK_KHR_"));
    assert!(!str_starts_with("VK_KH", "VK_KHR_"));
    assert!(matches!(extension_compare("VK_EXT_a", "VK_KHR_z"), TextOrder::Greater));
    assert!(matches!(extension_compare("VK_AMD_a", "VK_EXT_z"), TextOrder::Greater));
    assert!(matches!(extension_compare("VK_AMD_a", "VK_NV_a"), TextOrder::Less));
}
