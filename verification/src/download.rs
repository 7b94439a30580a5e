use vstd::prelude::*;

use crate::error::{Fault, PackError, SourceField};
use crate::paths::Platform;
use crate::model::{find_key, lookup, CompatibilityTarget, Download, ModEntry, ModSource, PackConfig};
use crate::text::{
    dots_to_slashes, ends_with, is_safe_filename, is_safe_filename_exec, join3, replaced_dots,
    same_text, trim_end_slashes, trimmed_end_slashes,
};

verus! {

/// The maven repository of Modrinth.
pub const MODRINTH_MAVEN: &'static str = "https://api.modrinth.com/maven";

/// The group under which Modrinth publishes projects in its maven repository.
pub const MODRINTH_GROUP: &'static str = "maven.modrinth";

/// The mathematical value of a [`Download`].
pub struct DownloadView {
    pub url: Seq<char>,
    pub filename: Seq<char>,
}

impl View for Download {
    type V = DownloadView;

    open spec fn view(&self) -> DownloadView {
        DownloadView { url: self.url@, filename: self.filename@ }
    }
}

/// The address of a file in a maven repository: the repository without its trailing
/// slashes, the group with its dots turned into slashes, the artifact, the version and the
/// file name, joined by slashes.
pub open spec fn maven_url_spec(
    repository: Seq<char>,
    group: Seq<char>,
    artifact: Seq<char>,
    version: Seq<char>,
    filename: Seq<char>,
) -> Seq<char> {
    trim_end_slashes(repository) + "/"@ + dots_to_slashes(group) + "/"@ + artifact + "/"@
        + version + "/"@ + filename
}

/// The address of a file in a maven repository.
pub fn maven_url(repository: &str, group: &str, artifact: &str, version: &str, filename: &str) -> (r:
    String)
    ensures
        r@ == maven_url_spec(repository@, group@, artifact@, version@, filename@),
{
    let mut url = trimmed_end_slashes(repository);
    url.append("/");
    let group_path = replaced_dots(group);
    url.append(group_path.as_str());
    url.append("/");
    url.append(artifact);
    url.append("/");
    url.append(version);
    url.append("/");
    url.append(filename);
    url
}

/// The file name a build gets by default: the project or artifact, a dash, the build's
/// identifier and `.jar`.
pub open spec fn default_filename(name: Seq<char>, identifier: Seq<char>) -> Seq<char> {
    name + "-"@ + identifier + ".jar"@
}

/// The file name of a build: the one it names, or the default one.
pub open spec fn filename_or(target: CompatibilityTarget, name: Seq<char>) -> Seq<char> {
    match target.filename {
        Some(f) => f@,
        None => default_filename(name, target.identifier@),
    }
}

/// What to download for the build `target` of mod `entry`: by the build's own source, or
/// else the mod's. A Modrinth project comes from Modrinth's maven repository; a maven
/// artifact from the named repository; a direct address is the build's identifier and
/// must name its file.
pub open spec fn download_spec(
    repositories: Seq<(String, String)>,
    entry: ModEntry,
    target: CompatibilityTarget,
) -> Result<DownloadView, Fault> {
    let source = match target.source {
        Some(s) => s,
        None => entry.source,
    };
    let id = entry.id@;
    if source.kind@ == "modrinth"@ {
        match source.project_slug {
            None => Err(Fault::MissingField { mod_id: id, field: SourceField::ProjectSlug }),
            Some(slug) => {
                let filename = filename_or(target, slug@);
                Ok(
                    DownloadView {
                        url: maven_url_spec(
                            MODRINTH_MAVEN@,
                            MODRINTH_GROUP@,
                            slug@,
                            target.identifier@,
                            filename,
                        ),
                        filename,
                    },
                )
            },
        }
    } else if source.kind@ == "maven"@ {
        match source.repository_ref {
            None => Err(Fault::MissingField { mod_id: id, field: SourceField::RepositoryRef }),
            Some(name) => match lookup(repositories, name@) {
                None => Err(Fault::UnknownRepository { repository: name@, mod_id: id }),
                Some(repository) => match source.group_id {
                    None => Err(Fault::MissingField { mod_id: id, field: SourceField::GroupId }),
                    Some(group) => match source.artifact_id {
                        None => Err(
                            Fault::MissingField { mod_id: id, field: SourceField::ArtifactId },
                        ),
                        Some(artifact) => {
                            let filename = filename_or(target, artifact@);
                            Ok(
                                DownloadView {
                                    url: maven_url_spec(
                                        repository@,
                                        group@,
                                        artifact@,
                                        target.identifier@,
                                        filename,
                                    ),
                                    filename,
                                },
                            )
                        },
                    },
                },
            },
        }
    } else if source.kind@ == "url"@ {
        match target.filename {
            None => Err(Fault::MissingFilename(id)),
            Some(f) => Ok(DownloadView { url: target.identifier@, filename: f@ }),
        }
    } else {
        Err(Fault::UnsupportedSource { kind: source.kind@, mod_id: id })
    }
}

/// The value of a field that a source kind needs, or the error that names it.
pub fn required<'a>(value: &'a Option<String>, field: SourceField, mod_id: &str) -> (r: Result<
    &'a str,
    PackError,
>)
    ensures
        match value {
            Some(v) => r is Ok && r->Ok_0@ == v@,
            None => r is Err && r->Err_0@ == (Fault::MissingField { mod_id: mod_id@, field }),
        },
{
    match value {
        Some(v) => Ok(v.as_str()),
        None => Err(PackError::MissingField { mod_id: String::from_str(mod_id), field }),
    }
}

/// The file name of a build: the one it names, or the default one.
fn filename_for(target: &CompatibilityTarget, name: &str) -> (r: String)
    ensures
        r@ == filename_or(*target, name@),
{
    match &target.filename {
        Some(f) => f.clone(),
        None => {
            let mut s = join3(name, "-", target.identifier.as_str());
            s.append(".jar");
            s
        },
    }
}

/// A mod file name is rejected unless it is one plain path component on `platform` ending in
/// `.jar`.
pub fn validate_filename(filename: &str, platform: Platform) -> (r: Result<(), PackError>)
    ensures
        r is Ok <==> is_safe_filename(filename@, platform),
        r is Err ==> r->Err_0@ == Fault::UnsafeFilename(filename@),
{
    if is_safe_filename_exec(filename, platform) {
        Ok(())
    } else {
        Err(PackError::UnsafeFilename(String::from_str(filename)))
    }
}

/// Whether the first bytes of a downloaded file are those of a jar (a zip archive): the file
/// holds at least two bytes, and they are `P` and `K`.
pub fn has_jar_header(start: &[u8]) -> (r: bool)
    ensures
        r == (start@.len() >= 2 && start@[0] == 0x50u8 && start@[1] == 0x4Bu8),
{
    start.len() >= 2 && start[0] == 0x50u8 && start[1] == 0x4Bu8
}

impl PackConfig {
    /// What to download for the build `target` of mod `entry`.
    pub fn download_for(&self, entry: &ModEntry, target: &CompatibilityTarget) -> (r: Result<
        Download,
        PackError,
    >)
        ensures
            match r {
                Ok(d) => download_spec(self.repositories_spec(), *entry, *target) == Ok::<
                    DownloadView,
                    Fault,
                >(d@),
                Err(e) => download_spec(self.repositories_spec(), *entry, *target) == Err::<
                    DownloadView,
                    Fault,
                >(e@),
            },
    {
        let source: &ModSource = match &target.source {
            Some(s) => s,
            None => &entry.source,
        };
        let id = entry.id.as_str();
        if same_text(source.kind.as_str(), "modrinth") {
            let slug = match required(&source.project_slug, SourceField::ProjectSlug, id) {
                Ok(s) => s,
                Err(e) => {
                    return Err(e);
                },
            };
            let filename = filename_for(target, slug);
            let url = maven_url(
                MODRINTH_MAVEN,
                MODRINTH_GROUP,
                slug,
                target.identifier.as_str(),
                filename.as_str(),
            );
            Ok(Download { url, filename })
        } else if same_text(source.kind.as_str(), "maven") {
            let name = match required(&source.repository_ref, SourceField::RepositoryRef, id) {
                Ok(s) => s,
                Err(e) => {
                    return Err(e);
                },
            };
            let repository = match find_key(self.repositories(), name) {
                Some(r) => r,
                None => {
                    return Err(
                        PackError::UnknownRepository {
                            repository: String::from_str(name),
                            mod_id: String::from_str(id),
                        },
                    );
                },
            };
            let group = match required(&source.group_id, SourceField::GroupId, id) {
                Ok(s) => s,
                Err(e) => {
                    return Err(e);
                },
            };
            let artifact = match required(&source.artifact_id, SourceField::ArtifactId, id) {
                Ok(s) => s,
                Err(e) => {
                    return Err(e);
                },
            };
            let filename = filename_for(target, artifact);
            let url = maven_url(
                repository.as_str(),
                group,
                artifact,
                target.identifier.as_str(),
                filename.as_str(),
            );
            Ok(Download { url, filename })
        } else if same_text(source.kind.as_str(), "url") {
            match &target.filename {
                Some(f) => Ok(Download { url: target.identifier.clone(), filename: f.clone() }),
                None => Err(PackError::MissingFilename(String::from_str(id))),
            }
        } else {
            Err(
                PackError::UnsupportedSource {
                    kind: source.kind.clone(),
                    mod_id: String::from_str(id),
                },
            )
        }
    }
}

proof fn lemma_ends_with_slash_name(prefix: Seq<char>, name: Seq<char>)
    ensures
        ends_with(prefix + "/"@ + name, "/"@ + name),
{
    let whole = prefix + "/"@ + name;
    let suffix = "/"@ + name;
    assert(whole.subrange(whole.len() - suffix.len(), whole.len() as int) =~= suffix);
}

/// The source a build is downloaded from: its own, or else its mod's.
pub open spec fn source_of(entry: ModEntry, target: CompatibilityTarget) -> ModSource {
    match target.source {
        Some(s) => s,
        None => entry.source,
    }
}

/// A download's file name and address follow from the build and the mod's source. When the
/// build names its file, the download has that file name, and (from Modrinth or a maven
/// repository) its address ends with `/` and that name. When it names none, the file is the
/// project or artifact, a dash, the build's identifier and `.jar`. A direct address is the
/// build's identifier itself.
pub proof fn lemma_download_file(
    repositories: Seq<(String, String)>,
    entry: ModEntry,
    target: CompatibilityTarget,
)
    requires
        download_spec(repositories, entry, target) is Ok,
    ensures
        target.filename is Some ==> download_spec(repositories, entry, target)->Ok_0.filename
            == target.filename->0@,
        (target.filename is Some && source_of(entry, target).kind@ != "url"@) ==> ends_with(
            download_spec(repositories, entry, target)->Ok_0.url,
            "/"@ + target.filename->0@,
        ),
        (target.filename is None && source_of(entry, target).kind@ == "modrinth"@) ==> download_spec(
            repositories,
            entry,
            target,
        )->Ok_0.filename == source_of(entry, target).project_slug->0@ + "-"@ + target.identifier@
            + ".jar"@,
        (target.filename is None && source_of(entry, target).kind@ == "maven"@) ==> download_spec(
            repositories,
            entry,
            target,
        )->Ok_0.filename == source_of(entry, target).artifact_id->0@ + "-"@ + target.identifier@
            + ".jar"@,
        source_of(entry, target).kind@ == "url"@ ==> target.filename is Some && download_spec(
            repositories,
            entry,
            target,
        )->Ok_0.url == target.identifier@,
        source_of(entry, target).kind@ == "modrinth"@ || source_of(entry, target).kind@ == "maven"@
            || source_of(entry, target).kind@ == "url"@,
{
    reveal_strlit("modrinth");
    reveal_strlit("maven");
    reveal_strlit("url");
    assert("maven"@.len() == 5 && "modrinth"@.len() == 8 && "url"@.len() == 3);
    assert("maven"@ != "modrinth"@ && "url"@ != "modrinth"@ && "url"@ != "maven"@);
    let source = match target.source {
        Some(s) => s,
        None => entry.source,
    };
    if source.kind@ == "modrinth"@ {
        let slug = source.project_slug->0;
        let filename = filename_or(target, slug@);
        lemma_ends_with_slash_name(
            trim_end_slashes(MODRINTH_MAVEN@) + "/"@ + dots_to_slashes(MODRINTH_GROUP@) + "/"@
                + slug@ + "/"@ + target.identifier@,
            filename,
        );
    } else if source.kind@ == "maven"@ {
        let repository = lookup(repositories, source.repository_ref->0@)->0;
        let artifact = source.artifact_id->0;
        let filename = filename_or(target, artifact@);
        lemma_ends_with_slash_name(
            trim_end_slashes(repository@) + "/"@ + dots_to_slashes(source.group_id->0@) + "/"@
                + artifact@ + "/"@ + target.identifier@,
            filename,
        );
    }
}

} // verus!
