use vstd::prelude::*;

verus! {

/// What a type declaration that is not an alias carries.
pub enum TypePayload {
    /// A code fragment, with the names that its markup flags.
    Code { text: String, markup_names: Vec<String> },
    /// Any other payload (members, enumerations, or nothing at all).
    Other,
}

/// One declaration of the registry's type section: exactly one of a
/// definition or an alias.
pub enum TypeDecl {
    /// A canonical type. Some definitions in the registry carry no name.
    Definition { name: Option<String>, payload: TypePayload },
    /// A synonym `name` for the type called `target`.
    Alias { name: String, target: String },
}

/// A core capability set.
pub struct Feature {
    pub name: String,
    /// The type names that its require blocks reference, in document order.
    pub required_types: Vec<String>,
}

/// An optional capability set.
pub struct Extension {
    pub name: String,
    /// The platform tag it is supported on, if any.
    pub supported: Option<String>,
    /// The extension that obsoletes it, if any.
    pub obsoleted_by: Option<String>,
    /// The type names that its require blocks reference, in document order.
    pub required_types: Vec<String>,
}

/// The loaded registry, as plain owned values in document order.
pub struct Registry {
    pub types: Vec<TypeDecl>,
    pub features: Vec<Feature>,
    pub extensions: Vec<Extension>,
}

} // verus!
