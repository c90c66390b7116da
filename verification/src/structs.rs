use vstd::prelude::*;

verus! {

/// The descriptor an extension author ships with the project: identity,
/// display data and the version code that alone decides whether a rebuild
/// is due.
pub struct Extension {
    pub slug: String,
    pub name: String,
    pub icon: String,
    pub version_code: u32,
    pub version_name: String,
    pub language: String,
    pub description: String,
}

/// A parsed extension descriptor file.
pub struct Metadata {
    pub extension: Extension,
}

/// One entry of the generated server index: the public, derived view of a
/// known extension, keyed by its stable id.
pub struct ServerIndex {
    pub id: String,
    pub name: String,
    pub icon: String,
    pub language: String,
    pub version_code: u32,
    pub version_name: String,
}

impl Clone for Extension {
    fn clone(&self) -> (r: Self)
        ensures
            r == *self,
    {
        Extension {
            slug: self.slug.clone(),
            name: self.name.clone(),
            icon: self.icon.clone(),
            version_code: self.version_code,
            version_name: self.version_name.clone(),
            language: self.language.clone(),
            description: self.description.clone(),
        }
    }
}

impl Clone for Metadata {
    fn clone(&self) -> (r: Self)
        ensures
            r == *self,
    {
        Metadata { extension: self.extension.clone() }
    }
}

impl Clone for ServerIndex {
    fn clone(&self) -> (r: Self)
        ensures
            r == *self,
    {
        ServerIndex {
            id: self.id.clone(),
            name: self.name.clone(),
            icon: self.icon.clone(),
            language: self.language.clone(),
            version_code: self.version_code,
            version_name: self.version_name.clone(),
        }
    }
}

} // verus!
