use vstd::prelude::*;

use crate::text::{join2, join3};

verus! {

/// A coordinate of a mod source that a source kind needs.
#[derive(Clone, Copy, PartialEq, Eq, Structural)]
pub enum SourceField {
    ProjectSlug,
    RepositoryRef,
    GroupId,
    ArtifactId,
}

impl SourceField {
    /// The field's name as the manifest writes it.
    pub open spec fn name_spec(self) -> Seq<char> {
        match self {
            SourceField::ProjectSlug => "projectSlug"@,
            SourceField::RepositoryRef => "repositoryRef"@,
            SourceField::GroupId => "groupId"@,
            SourceField::ArtifactId => "artifactId"@,
        }
    }

    pub fn name(&self) -> (r: &'static str)
        ensures
            r@ == self.name_spec(),
    {
        match self {
            SourceField::ProjectSlug => "projectSlug",
            SourceField::RepositoryRef => "repositoryRef",
            SourceField::GroupId => "groupId",
            SourceField::ArtifactId => "artifactId",
        }
    }
}

/// Why a pack cannot be resolved or installed.
pub enum PackError {
    CircularInheritance(String),
    UnknownBranch(String),
    MissingField { mod_id: String, field: SourceField },
    UnknownRepository { repository: String, mod_id: String },
    MissingFilename(String),
    UnsupportedSource { kind: String, mod_id: String },
    UnsafeFilename(String),
    DuplicateFilename(String),
    NoCompatibleMods,
}

/// The mathematical value of a [`PackError`]: the same cases, over texts.
pub enum Fault {
    CircularInheritance(Seq<char>),
    UnknownBranch(Seq<char>),
    MissingField { mod_id: Seq<char>, field: SourceField },
    UnknownRepository { repository: Seq<char>, mod_id: Seq<char> },
    MissingFilename(Seq<char>),
    UnsupportedSource { kind: Seq<char>, mod_id: Seq<char> },
    UnsafeFilename(Seq<char>),
    DuplicateFilename(Seq<char>),
    NoCompatibleMods,
}

impl View for PackError {
    type V = Fault;

    open spec fn view(&self) -> Fault {
        match self {
            PackError::CircularInheritance(id) => Fault::CircularInheritance(id@),
            PackError::UnknownBranch(id) => Fault::UnknownBranch(id@),
            PackError::MissingField { mod_id, field } => Fault::MissingField {
                mod_id: mod_id@,
                field: *field,
            },
            PackError::UnknownRepository { repository, mod_id } => Fault::UnknownRepository {
                repository: repository@,
                mod_id: mod_id@,
            },
            PackError::MissingFilename(id) => Fault::MissingFilename(id@),
            PackError::UnsupportedSource { kind, mod_id } => Fault::UnsupportedSource {
                kind: kind@,
                mod_id: mod_id@,
            },
            PackError::UnsafeFilename(f) => Fault::UnsafeFilename(f@),
            PackError::DuplicateFilename(f) => Fault::DuplicateFilename(f@),
            PackError::NoCompatibleMods => Fault::NoCompatibleMods,
        }
    }
}

impl Fault {
    /// The message shown to the user for this error.
    pub open spec fn message(self) -> Seq<char> {
        match self {
            Fault::CircularInheritance(id) => "Circular pack inheritance at "@ + id,
            Fault::UnknownBranch(id) => "Unknown NoRisk branch: "@ + id,
            Fault::MissingField { mod_id, field } => "Mod '"@ + mod_id + "' is missing "@
                + field.name_spec(),
            Fault::UnknownRepository { repository, mod_id } => "Unknown repository '"@
                + repository + "' for "@ + mod_id,
            Fault::MissingFilename(id) => "Direct URL mod '"@ + id + "' has no filename"@,
            Fault::UnsupportedSource { kind, mod_id } => "Unsupported source type '"@ + kind
                + "' for "@ + mod_id,
            Fault::UnsafeFilename(f) => "Unsafe mod filename '"@ + f + "'"@,
            Fault::DuplicateFilename(f) => "The pack contains duplicate filename '"@ + f
                + "'"@,
            Fault::NoCompatibleMods => "The selected branch has no compatible mods"@,
        }
    }
}

impl PackError {
    /// The message shown to the user for this error.
    pub fn message(&self) -> (r: String)
        ensures
            r@ == self@.message(),
    {
        match self {
            PackError::CircularInheritance(id) => join2("Circular pack inheritance at ", id.as_str()),
            PackError::UnknownBranch(id) => join2("Unknown NoRisk branch: ", id.as_str()),
            PackError::MissingField { mod_id, field } => {
                let mut s = join3("Mod '", mod_id.as_str(), "' is missing ");
                s.append(field.name());
                s
            },
            PackError::UnknownRepository { repository, mod_id } => {
                let mut s = join3("Unknown repository '", repository.as_str(), "' for ");
                s.append(mod_id.as_str());
                s
            },
            PackError::MissingFilename(id) => join3(
                "Direct URL mod '",
                id.as_str(),
                "' has no filename",
            ),
            PackError::UnsupportedSource { kind, mod_id } => {
                let mut s = join3("Unsupported source type '", kind.as_str(), "' for ");
                s.append(mod_id.as_str());
                s
            },
            PackError::UnsafeFilename(f) => join3("Unsafe mod filename '", f.as_str(), "'"),
            PackError::DuplicateFilename(f) => join3(
                "The pack contains duplicate filename '",
                f.as_str(),
                "'",
            ),
            PackError::NoCompatibleMods => String::from_str(
                "The selected branch has no compatible mods",
            ),
        }
    }
}

} // verus!
