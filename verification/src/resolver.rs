//! What dependency resolution works on: packages, their sources, conflicts
//! between demands, and the order in which packages depend on each other.
use vstd::prelude::*;
use vstd::string::*;

use crate::graph::{
    build_order, depends_at, is_build_order, is_cycle, is_settled, last_position, law_cycle_is_never_settled,
    law_unsettled_means_cycle, lemma_all_listed, lemma_covers, lemma_last_position, lemma_position, position,
};
use crate::lockfile::{LockedDep, LockedDepView, LockedPackage, LockedPackageView, LockedSource, LockedSourceView};
use crate::manifest::{dep_names, DepMap, DepSpec, DepSpecView, Manifest, ManifestView};
use crate::order::{
    by_order, deep_texts, firsts, is_dependency_order, law_dependency_order_is_unique, lemma_build_order_names,
    lemma_found_deps, lemma_name_graph, link, marks, name_graph, seconds, stands_before,
};
use crate::paths::{bare_path, git_cache_dir, git_cache_dir_view, FsPath, FsPathView};
use crate::text::{
    join_strings, joined, lemma_tells, lemma_tells_within, lemma_views_push, opt_view, sanitize, sanitized, tells,
    text_lt, views, Text,
};
use crate::util::{entries_bytes, entries_sorted, sha256_of_dir, sha256_text, FileEntry};

verus! {

/// What a package is known by: its name and where it comes from. Packages of
/// one name from different places have different ids.
#[derive(Debug)]
pub struct PackageId {
    pub name: String,
    pub source_fingerprint: String,
}

#[verifier::ext_equal]
pub struct PackageIdView {
    pub name: Text,
    pub source_fingerprint: Text,
}

impl View for PackageId {
    type V = PackageIdView;

    open spec fn view(&self) -> PackageIdView {
        PackageIdView { name: self.name@, source_fingerprint: self.source_fingerprint@ }
    }
}

impl Clone for PackageId {
    fn clone(&self) -> (copy: PackageId)
        ensures
            copy@ == self@,
    {
        PackageId { name: self.name.clone(), source_fingerprint: self.source_fingerprint.clone() }
    }
}

/// The id of the package in the directory with that absolute path.
pub open spec fn path_id(name: Text, abs_path: Text) -> PackageIdView {
    PackageIdView { name, source_fingerprint: abs_path }
}

/// The id of the package in a Git repository at that commit: the fingerprint
/// is `url#commit`.
pub open spec fn git_id(name: Text, url: Text, commit: Text) -> PackageIdView {
    PackageIdView { name, source_fingerprint: url + "#"@ + commit }
}

/// A Git source as it is written: `git+url#rev`.
pub open spec fn git_text(url: Text, rev: Text) -> Text {
    "git+"@ + url + "#"@ + rev
}

/// A Git source as it is written: `git+url#rev`.
pub fn write_git(url: &str, rev: &str) -> (text: String)
    ensures
        text@ == git_text(url@, rev@),
{
    String::from_str("git+").concat(url).concat("#").concat(rev)
}

impl PackageId {
    pub fn for_path(name: &str, abs_path: &str) -> (id: PackageId)
        ensures
            id@ == path_id(name@, abs_path@),
    {
        PackageId { name: String::from_str(name), source_fingerprint: String::from_str(abs_path) }
    }

    pub fn for_git(name: &str, url: &str, commit: &str) -> (id: PackageId)
        ensures
            id@ == git_id(name@, url@, commit@),
    {
        PackageId {
            name: String::from_str(name),
            source_fingerprint: String::from_str(url).concat("#").concat(commit),
        }
    }
}

/// Where a resolved package was found. A commit stands for itself, whatever
/// name it was asked for by.
#[derive(Debug)]
pub enum ResolvedSource {
    Path { abs_path: String },
    Git { url: String, rev: String },
}

#[verifier::ext_equal]
pub enum ResolvedSourceView {
    Path { abs_path: Text },
    Git { url: Text, rev: Text },
}

impl View for ResolvedSource {
    type V = ResolvedSourceView;

    open spec fn view(&self) -> ResolvedSourceView {
        match *self {
            ResolvedSource::Path { abs_path } => ResolvedSourceView::Path { abs_path: abs_path@ },
            ResolvedSource::Git { url, rev } => ResolvedSourceView::Git { url: url@, rev: rev@ },
        }
    }
}

impl Clone for ResolvedSource {
    fn clone(&self) -> (copy: ResolvedSource)
        ensures
            copy@ == self@,
    {
        match self {
            ResolvedSource::Path { abs_path } => ResolvedSource::Path { abs_path: abs_path.clone() },
            ResolvedSource::Git { url, rev } => ResolvedSource::Git { url: url.clone(), rev: rev.clone() },
        }
    }
}

/// A resolved package.
#[derive(Debug)]
pub struct ResolvedNode {
    pub name: String,
    pub version: String,
    pub source: ResolvedSource,
    pub direct_deps: DepMap,
    pub id: PackageId,
}

#[verifier::ext_equal]
pub struct ResolvedNodeView {
    pub name: Text,
    pub version: Text,
    pub source: ResolvedSourceView,
    pub direct_deps: Seq<(Text, DepSpecView)>,
    pub id: PackageIdView,
}

impl View for ResolvedNode {
    type V = ResolvedNodeView;

    open spec fn view(&self) -> ResolvedNodeView {
        ResolvedNodeView {
            name: self.name@,
            version: self.version@,
            source: self.source@,
            direct_deps: self.direct_deps@,
            id: self.id@,
        }
    }
}

impl Clone for ResolvedNode {
    fn clone(&self) -> (copy: ResolvedNode)
        ensures
            copy@ == self@,
    {
        ResolvedNode {
            name: self.name.clone(),
            version: self.version.clone(),
            source: self.source.clone(),
            direct_deps: self.direct_deps.clone(),
            id: self.id.clone(),
        }
    }
}

/// Demands on a package that cannot all be met.
#[derive(Debug)]
pub struct Conflict {
    pub package_name: String,
    pub kind: ConflictKind,
    pub demands: Vec<ConflictDemand>,
}

#[derive(Debug, Clone, Copy)]
pub enum ConflictKind {
    /// The package is asked for from different places.
    SourceMismatch,
    /// The package's version does not meet all requirements.
    VersionIncompatible,
}

/// Who demands what.
#[derive(Debug)]
pub struct ConflictDemand {
    pub requester_chain: String,
    pub version_req: String,
}

#[verifier::ext_equal]
pub struct ConflictView {
    pub package_name: Text,
    pub kind: ConflictKind,
    pub demands: Seq<ConflictDemandView>,
}

#[verifier::ext_equal]
pub struct ConflictDemandView {
    pub requester_chain: Text,
    pub version_req: Text,
}

impl View for ConflictDemand {
    type V = ConflictDemandView;

    open spec fn view(&self) -> ConflictDemandView {
        ConflictDemandView { requester_chain: self.requester_chain@, version_req: self.version_req@ }
    }
}

impl View for Conflict {
    type V = ConflictView;

    open spec fn view(&self) -> ConflictView {
        ConflictView { package_name: self.package_name@, kind: self.kind, demands: views(self.demands@) }
    }
}

/// The lines that list demands.
pub open spec fn demand_lines(demands: Seq<ConflictDemandView>) -> Text
    decreases demands.len(),
{
    if demands.len() == 0 {
        Seq::empty()
    } else {
        demand_lines(demands.drop_last()) + "  - "@ + demands.last().requester_chain + " 要求 "@
            + demands.last().version_req + "\n"@
    }
}

impl ConflictView {
    /// The message for the user.
    pub open spec fn text(self) -> Text {
        (match self.kind {
            ConflictKind::SourceMismatch => "来源冲突：包 \""@ + self.package_name + "\" 被多个依赖从不同来源引入：\n"@,
            ConflictKind::VersionIncompatible => "版本冲突：包 \""@ + self.package_name
                + "\" 被多个依赖以不兼容的版本要求引入：\n"@,
        }) + demand_lines(self.demands)
    }
}

impl Conflict {
    /// The message for the user: the package, and who demands what of it.
    pub fn to_string(&self) -> (text: String)
        ensures
            text@ == self@.text(),
    {
        let mut text = match self.kind {
            ConflictKind::SourceMismatch => String::from_str("来源冲突：包 \"").concat(self.package_name.as_str()).concat(
                "\" 被多个依赖从不同来源引入：\n",
            ),
            ConflictKind::VersionIncompatible => String::from_str("版本冲突：包 \"").concat(
                self.package_name.as_str(),
            ).concat("\" 被多个依赖以不兼容的版本要求引入：\n"),
        };
        let ghost head = text@;
        let ghost demands = self@.demands;
        let mut i: usize = 0;
        assert(text@ =~= head + demand_lines(demands.take(0)));
        while i < self.demands.len()
            invariant
                demands == views(self.demands@),
                i <= demands.len(),
                text@ == head + demand_lines(demands.take(i as int)),
            decreases demands.len() - i,
        {
            let ghost before = text@;
            text.append("  - ");
            text.append(self.demands[i].requester_chain.as_str());
            text.append(" 要求 ");
            text.append(self.demands[i].version_req.as_str());
            text.append("\n");
            proof {
                let now = demands.take(i + 1);
                assert(now.drop_last() =~= demands.take(i as int));
                assert(now.last() == self.demands@[i as int]@);
                assert(text@ =~= head + demand_lines(now));
            }
            i = i + 1;
        }
        assert(demands.take(i as int) =~= demands);
        text
    }
}

/// What resolution has come to.
#[derive(Debug)]
pub struct ResolveResult {
    /// The packages, dependencies first.
    pub packages: Vec<ResolvedNode>,
    pub conflicts: Vec<Conflict>,
}

/// Why resolution stops.
#[derive(Debug)]
pub enum ResolveError {
    /// A dependency from a registry, which is not supported.
    Registry { name: String, chain: String },
    /// A dependency with neither a path nor a Git repository.
    NoSource { name: String, chain: String },
    /// Packages that depend on each other in a circle, or on such packages.
    Cycle(Vec<String>),
}

#[verifier::ext_equal]
pub enum ResolveErrorView {
    Registry { name: Text, chain: Text },
    NoSource { name: Text, chain: Text },
    Cycle(Seq<Text>),
}

impl View for ResolveError {
    type V = ResolveErrorView;

    open spec fn view(&self) -> ResolveErrorView {
        match *self {
            ResolveError::Registry { name, chain } => ResolveErrorView::Registry { name: name@, chain: chain@ },
            ResolveError::NoSource { name, chain } => ResolveErrorView::NoSource { name: name@, chain: chain@ },
            ResolveError::Cycle(names) => ResolveErrorView::Cycle(views(names@)),
        }
    }
}

impl ResolveErrorView {
    /// The message for the user.
    pub open spec fn text(self) -> Text {
        match self {
            ResolveErrorView::Registry { name, .. } => "v0.3 原型暂不支持 registry 依赖（"@ + name
                + "），请使用 path 或 git"@,
            ResolveErrorView::NoSource { name, .. } => "依赖 "@ + name + " 必须设置 path 或 git"@,
            ResolveErrorView::Cycle(names) => "检测到循环依赖，涉及包："@ + joined(names, ", "@),
        }
    }
}

impl ResolveError {
    /// The message for the user.
    pub fn message(&self) -> (text: String)
        ensures
            text@ == self@.text(),
    {
        match self {
            ResolveError::Registry { name, .. } => String::from_str("v0.3 原型暂不支持 registry 依赖（").concat(
                name.as_str(),
            ).concat("），请使用 path 或 git"),
            ResolveError::NoSource { name, .. } => String::from_str("依赖 ").concat(name.as_str()).concat(
                " 必须设置 path 或 git",
            ),
            ResolveError::Cycle(names) => String::from_str("检测到循环依赖，涉及包：").concat(
                join_strings(names, ", ").as_str(),
            ),
        }
    }
}

/// How a failure to resolve a dependency is introduced.
pub fn resolve_context(name: &str, chain: &str) -> (text: String)
    ensures
        text@ == "解析依赖 "@ + name@ + " 失败（来自 "@ + chain@ + "）"@,
{
    String::from_str("解析依赖 ").concat(name).concat(" 失败（来自 ").concat(chain).concat("）")
}

/// Where to look for a dependency.
#[derive(Debug)]
pub enum SourceRequest {
    /// In the directory with that path, seen from the package that asks.
    Path { rel: String },
    /// In the Git repository, at that commit, tag or branch.
    Git { url: String, rev: String },
}

#[verifier::ext_equal]
pub enum SourceRequestView {
    Path { rel: Text },
    Git { url: Text, rev: Text },
}

impl View for SourceRequest {
    type V = SourceRequestView;

    open spec fn view(&self) -> SourceRequestView {
        match *self {
            SourceRequest::Path { rel } => SourceRequestView::Path { rel: rel@ },
            SourceRequest::Git { url, rev } => SourceRequestView::Git { url: url@, rev: rev@ },
        }
    }
}

/// The revision that is asked for: the commit, else the tag, else the branch,
/// else `HEAD`.
pub open spec fn pin(rev: Option<Text>, tag: Option<Text>, branch: Option<Text>) -> Text {
    match rev {
        Some(r) => r,
        None => match tag {
            Some(t) => t,
            None => match branch {
                Some(b) => b,
                None => "HEAD"@,
            },
        },
    }
}

fn pin_of(rev: &Option<String>, tag: &Option<String>, branch: &Option<String>) -> (text: String)
    ensures
        text@ == pin(opt_view(*rev), opt_view(*tag), opt_view(*branch)),
{
    match rev {
        Some(r) => r.clone(),
        None => match tag {
            Some(t) => t.clone(),
            None => match branch {
                Some(b) => b.clone(),
                None => String::from_str("HEAD"),
            },
        },
    }
}

/// What a dependency demands, as conflicts show it.
pub open spec fn demand_text(dep: DepSpecView) -> Text {
    match dep {
        DepSpecView::VersionReq(v) => v,
        DepSpecView::Detailed { version, git, rev, tag, branch, path, .. } => match version {
            Some(v) => v,
            None => match git {
                Some(url) => git_text(url, pin(rev, tag, branch)),
                None => match path {
                    Some(p) => "path:"@ + p,
                    None => "*"@,
                },
            },
        },
    }
}

/// What a dependency demands: its version requirement, else its source.
pub fn dep_spec_to_req_string(dep: &DepSpec) -> (text: String)
    ensures
        text@ == demand_text(dep@),
{
    match dep {
        DepSpec::VersionReq(v) => v.clone(),
        DepSpec::Detailed { version, git, rev, tag, branch, path, .. } => match version {
            Some(v) => v.clone(),
            None => match git {
                Some(url) => write_git(url.as_str(), pin_of(rev, tag, branch).as_str()),
                None => match path {
                    Some(p) => String::from_str("path:").concat(p.as_str()),
                    None => String::from_str("*"),
                },
            },
        },
    }
}

/// Where a dependency is to be looked for, if it says so: a path counts
/// before a Git repository.
pub open spec fn wanted_source(dep: DepSpecView) -> Option<SourceRequestView> {
    match dep {
        DepSpecView::VersionReq(_) => None,
        DepSpecView::Detailed { git, rev, tag, branch, path, .. } => match path {
            Some(p) => Some(SourceRequestView::Path { rel: p }),
            None => match git {
                Some(url) => Some(SourceRequestView::Git { url, rev: pin(rev, tag, branch) }),
                None => None,
            },
        },
    }
}

/// The error for a dependency that says nowhere to look.
pub open spec fn source_fault(name: Text, dep: DepSpecView, chain: Text) -> ResolveErrorView {
    match dep {
        DepSpecView::VersionReq(_) => ResolveErrorView::Registry { name, chain },
        DepSpecView::Detailed { .. } => ResolveErrorView::NoSource { name, chain },
    }
}

/// Where a dependency is to be looked for.
pub fn source_request(name: &str, dep: &DepSpec, chain: &str) -> (request: Result<SourceRequest, ResolveError>)
    ensures
        match request {
            Ok(r) => wanted_source(dep@) == Some(r@),
            Err(e) => wanted_source(dep@) is None && e@ == source_fault(name@, dep@, chain@),
        },
{
    match dep {
        DepSpec::VersionReq(_) => Err(
            ResolveError::Registry { name: String::from_str(name), chain: String::from_str(chain) },
        ),
        DepSpec::Detailed { git, rev, tag, branch, path, .. } => match path {
            Some(p) => Ok(SourceRequest::Path { rel: p.clone() }),
            None => match git {
                Some(url) => Ok(SourceRequest::Git { url: url.clone(), rev: pin_of(rev, tag, branch) }),
                None => Err(ResolveError::NoSource { name: String::from_str(name), chain: String::from_str(chain) }),
            },
        },
    }
}

/// The id of a package that was looked for and found: `found` is the absolute
/// path of the directory, or the commit.
pub open spec fn found_id(name: Text, request: SourceRequestView, found: Text) -> PackageIdView {
    match request {
        SourceRequestView::Path { .. } => path_id(name, found),
        SourceRequestView::Git { url, .. } => git_id(name, url, found),
    }
}

/// The id of a package that was looked for and found: `found` is the absolute
/// path of the directory, or the commit.
pub fn dep_spec_to_package_id(name: &str, request: &SourceRequest, found: &str) -> (id: PackageId)
    ensures
        id@ == found_id(name@, request@, found@),
{
    match request {
        SourceRequest::Path { .. } => PackageId::for_path(name, found),
        SourceRequest::Git { url, .. } => PackageId::for_git(name, url.as_str(), found),
    }
}

/// The version of a package: that of its manifest, else the declared one,
/// else `0.0.0`.
pub open spec fn package_version(manifest: Option<ManifestView>, declared: Option<Text>) -> Text {
    match manifest {
        Some(m) => m.version,
        None => match declared {
            Some(v) => v,
            None => "0.0.0"@,
        },
    }
}

/// The dependencies of a package: those of its manifest.
pub open spec fn package_deps(manifest: Option<ManifestView>) -> Seq<(Text, DepSpecView)> {
    match manifest {
        Some(m) => m.dependencies,
        None => Seq::empty(),
    }
}

/// The view of an optional manifest.
pub open spec fn manifest_view(manifest: Option<&Manifest>) -> Option<ManifestView> {
    match manifest {
        Some(m) => Some(m@),
        None => None,
    }
}

fn version_and_deps(declared: Option<&String>, manifest: Option<&Manifest>) -> (r: (String, DepMap))
    requires
        manifest matches Some(m) ==> m.wf(),
    ensures
        r.0@ == package_version(
            manifest_view(manifest),
            match declared {
                Some(v) => Some(v@),
                None => None,
            },
        ),
        r.1@ == package_deps(manifest_view(manifest)),
        r.1.wf(),
{
    match manifest {
        Some(m) => (m.version.clone(), m.dependencies.clone()),
        None => {
            let version = match declared {
                Some(v) => v.clone(),
                None => String::from_str("0.0.0"),
            };
            (version, DepMap::new())
        },
    }
}

/// The package in a directory, with the manifest found there, if any.
pub fn resolve_path_dep(name: &str, abs_path: &str, declared: Option<&String>, manifest: Option<&Manifest>) -> (node:
    ResolvedNode)
    requires
        manifest matches Some(m) ==> m.wf(),
    ensures
        node.direct_deps.wf(),
        node@ == (ResolvedNodeView {
            name: name@,
            version: package_version(
                manifest_view(manifest),
                match declared {
                    Some(v) => Some(v@),
                    None => None,
                },
            ),
            source: ResolvedSourceView::Path { abs_path: abs_path@ },
            direct_deps: package_deps(manifest_view(manifest)),
            id: path_id(name@, abs_path@),
        }),
{
    let (version, direct_deps) = version_and_deps(declared, manifest);
    ResolvedNode {
        name: String::from_str(name),
        version,
        source: ResolvedSource::Path { abs_path: String::from_str(abs_path) },
        direct_deps,
        id: PackageId::for_path(name, abs_path),
    }
}

/// The package in a Git repository at a commit, with the manifest found
/// there, if any.
pub fn resolve_git_dep(
    name: &str,
    url: &str,
    commit: &str,
    declared: Option<&String>,
    manifest: Option<&Manifest>,
) -> (node: ResolvedNode)
    requires
        manifest matches Some(m) ==> m.wf(),
    ensures
        node.direct_deps.wf(),
        node@ == (ResolvedNodeView {
            name: name@,
            version: package_version(
                manifest_view(manifest),
                match declared {
                    Some(v) => Some(v@),
                    None => None,
                },
            ),
            source: ResolvedSourceView::Git { url: url@, rev: commit@ },
            direct_deps: package_deps(manifest_view(manifest)),
            id: git_id(name@, url@, commit@),
        }),
{
    let (version, direct_deps) = version_and_deps(declared, manifest);
    ResolvedNode {
        name: String::from_str(name),
        version,
        source: ResolvedSource::Git { url: String::from_str(url), rev: String::from_str(commit) },
        direct_deps,
        id: PackageId::for_git(name, url, commit),
    }
}

/// The version that a detailed dependency declares.
pub open spec fn declared_version(dep: DepSpecView) -> Option<Text> {
    match dep {
        DepSpecView::VersionReq(_) => None,
        DepSpecView::Detailed { version, .. } => version,
    }
}

/// The package that a dependency turns out to be.
pub open spec fn resolved_node(
    name: Text,
    dep: DepSpecView,
    request: SourceRequestView,
    found: Text,
    manifest: Option<ManifestView>,
) -> ResolvedNodeView {
    ResolvedNodeView {
        name,
        version: package_version(manifest, declared_version(dep)),
        source: match request {
            SourceRequestView::Path { .. } => ResolvedSourceView::Path { abs_path: found },
            SourceRequestView::Git { url, .. } => ResolvedSourceView::Git { url, rev: found },
        },
        direct_deps: package_deps(manifest),
        id: found_id(name, request, found),
    }
}

/// The package that a dependency turns out to be, from where it was found and
/// the manifest found there.
pub fn resolve_one(
    name: &str,
    dep: &DepSpec,
    request: &SourceRequest,
    found: &str,
    manifest: Option<&Manifest>,
) -> (node: ResolvedNode)
    requires
        manifest matches Some(m) ==> m.wf(),
    ensures
        node.direct_deps.wf(),
        node@ == resolved_node(name@, dep@, request@, found@, manifest_view(manifest)),
{
    let declared: Option<&String> = match dep {
        DepSpec::VersionReq(_) => None,
        DepSpec::Detailed { version, .. } => version.as_ref(),
    };
    match request {
        SourceRequest::Path { .. } => resolve_path_dep(name, found, declared, manifest),
        SourceRequest::Git { url, .. } => resolve_git_dep(name, url.as_str(), found, declared, manifest),
    }
}

/// The cache directory of a Git repository at a revision.
pub open spec fn repo_dir_view(root: FsPathView, url: Text, rev: Text) -> FsPathView {
    git_cache_dir_view(root).join(sanitized(url) + "-"@ + sanitized(rev))
}

/// The cache directory of a Git repository at a revision.
pub fn repo_dir(root: &FsPath, url: &str, rev: &str) -> (dir: FsPath)
    ensures
        dir@ == repo_dir_view(root@, url@, rev@),
{
    let name = sanitize(url).concat("-").concat(sanitize(rev).as_str());
    git_cache_dir(root).join(name.as_str())
}

/// The directory from which a package's own path dependencies are seen: its
/// own, or the cache directory of its repository at its commit.
pub open spec fn node_base_view(root: FsPathView, source: ResolvedSourceView) -> FsPathView {
    match source {
        ResolvedSourceView::Path { abs_path } => bare_path(abs_path),
        ResolvedSourceView::Git { url, rev } => repo_dir_view(root, url, rev),
    }
}

/// The directory from which a package's own path dependencies are seen: its
/// own, or the cache directory of its repository at its commit.
pub fn node_base(root: &FsPath, source: &ResolvedSource) -> (base: FsPath)
    ensures
        base@ == node_base_view(root@, source@),
{
    match source {
        ResolvedSource::Path { abs_path } => FsPath::new(abs_path.as_str()),
        ResolvedSource::Git { url, rev } => repo_dir(root, url.as_str(), rev.as_str()),
    }
}

/// A resolved source as the lockfile pins it.
pub open spec fn locked_source(source: ResolvedSourceView) -> LockedSourceView {
    match source {
        ResolvedSourceView::Path { abs_path } => LockedSourceView::Path { path: abs_path },
        ResolvedSourceView::Git { url, rev } => LockedSourceView::Git { url, rev },
    }
}

/// A resolved package as the lockfile pins it, with the versions of its
/// dependencies still to be filled in.
pub open spec fn locked_node(node: ResolvedNodeView, content_sha256: Text) -> LockedPackageView {
    LockedPackageView {
        name: node.name,
        version: node.version,
        source: locked_source(node.source),
        content_sha256,
        dependencies: Seq::new(
            node.direct_deps.len(),
            |i: int| LockedDepView { name: node.direct_deps[i].0, version: Seq::empty() },
        ),
    }
}

/// A resolved package as the lockfile pins it, with the versions of its
/// dependencies still to be filled in.
pub fn node_to_locked_package(node: &ResolvedNode, content_sha256: String) -> (locked: LockedPackage)
    ensures
        locked@ == locked_node(node@, content_sha256@),
{
    let source = match &node.source {
        ResolvedSource::Path { abs_path } => LockedSource::Path { path: abs_path.clone() },
        ResolvedSource::Git { url, rev } => LockedSource::Git { url: url.clone(), rev: rev.clone() },
    };
    let mut dependencies: Vec<LockedDep> = Vec::new();
    let mut i: usize = 0;
    while i < node.direct_deps.len()
        invariant
            i <= node.direct_deps@.len(),
            dependencies@.len() == i,
            forall|k: int|
                0 <= k < i ==> (#[trigger] dependencies@[k])@ == (LockedDepView {
                    name: node.direct_deps@[k].0,
                    version: Seq::empty(),
                }),
        decreases node.direct_deps@.len() - i,
    {
        dependencies.push(LockedDep { name: node.direct_deps.name(i).clone(), version: String::new() });
        i = i + 1;
    }
    assert(views(dependencies@) =~= locked_node(node@, content_sha256@).dependencies);
    LockedPackage {
        name: node.name.clone(),
        version: node.version.clone(),
        source,
        content_sha256,
        dependencies,
    }
}

/// The names of packages.
pub open spec fn node_names(nodes: Seq<ResolvedNodeView>) -> Seq<Text> {
    Seq::new(nodes.len(), |i: int| nodes[i].name)
}

/// The names of the dependencies of packages.
pub open spec fn node_deps(nodes: Seq<ResolvedNodeView>) -> Seq<Seq<Text>> {
    Seq::new(nodes.len(), |i: int| dep_names(nodes[i].direct_deps))
}

/// Whether every chain of dependencies from the package ends.
pub open spec fn can_be_built(nodes: Seq<ResolvedNodeView>, i: int) -> bool {
    is_settled(name_graph(node_names(nodes), node_deps(nodes)), i as usize)
}

/// The names, in order, of the packages on a circle of dependencies or with a
/// chain of dependencies that leads to one.
pub open spec fn stuck_names(nodes: Seq<ResolvedNodeView>) -> Seq<Text> {
    stuck_upto(nodes, nodes.len() as int)
}

pub open spec fn stuck_upto(nodes: Seq<ResolvedNodeView>, n: int) -> Seq<Text>
    decreases n,
{
    if n <= 0 {
        Seq::empty()
    } else if can_be_built(nodes, n - 1) {
        stuck_upto(nodes, n - 1)
    } else {
        stuck_upto(nodes, n - 1).push(nodes[n - 1].name)
    }
}

/// Whether `sorted` holds the packages of `nodes`, each after the packages it
/// depends on.
pub open spec fn is_sorted_form(nodes: Seq<ResolvedNodeView>, sorted: Seq<ResolvedNodeView>) -> bool {
    &&& sorted.len() == nodes.len()
    &&& forall|x: ResolvedNodeView| #[trigger] sorted.contains(x) <==> nodes.contains(x)
    &&& is_dependency_order(node_names(sorted), node_deps(sorted))
}

fn dep_name_list(deps: &DepMap) -> (names: Vec<String>)
    ensures
        views(names@) == dep_names(deps@),
{
    let mut names: Vec<String> = Vec::new();
    let mut i: usize = 0;
    while i < deps.len()
        invariant
            i <= deps@.len(),
            names@.len() == i,
            forall|k: int| 0 <= k < i ==> (#[trigger] names@[k])@ == deps@[k].0,
        decreases deps@.len() - i,
    {
        names.push(deps.name(i).clone());
        i = i + 1;
    }
    assert(views(names@) =~= dep_names(deps@));
    names
}

/// Sorts packages so that each stands after the packages it depends on:
/// those without dependencies first, by name, then whatever each package
/// makes possible, again by name. Fails where packages depend on each other in
/// a circle.
pub fn topological_sort(nodes: Vec<ResolvedNode>) -> (sorted: Result<Vec<ResolvedNode>, ResolveError>)
    requires
        node_names(views(nodes@)).no_duplicates(),
    ensures
        match sorted {
            Ok(packages) => {
                &&& is_sorted_form(views(nodes@), views(packages@))
                &&& stuck_names(views(nodes@)).len() == 0
            },
            Err(e) => {
                &&& e@ == ResolveErrorView::Cycle(stuck_names(views(nodes@)))
                &&& stuck_names(views(nodes@)).len() > 0
            },
        },
{
    let ghost all = views(nodes@);
    let n: usize = nodes.len();
    let mut names: Vec<String> = Vec::new();
    let mut deps: Vec<Vec<String>> = Vec::new();
    let mut i: usize = 0;
    while i < n
        invariant
            all == views(nodes@),
            n == nodes@.len(),
            i <= n,
            names@.len() == i,
            deps@.len() == i,
            forall|k: int| 0 <= k < i ==> (#[trigger] names@[k])@ == all[k].name,
            forall|k: int| 0 <= k < i ==> views((#[trigger] deps@[k])@) == dep_names(all[k].direct_deps),
        decreases n - i,
    {
        assert(all[i as int] == nodes@[i as int]@);
        names.push(nodes[i].name.clone());
        deps.push(dep_name_list(&nodes[i].direct_deps));
        i = i + 1;
    }
    let ghost texts = node_names(all);
    let ghost wanted = node_deps(all);
    assert(views(names@) =~= texts);
    assert(deep_texts(deps@) =~= wanted);
    let adj = link(&names, &deps);
    let order = build_order(&names, &adj);
    let ghost graph = name_graph(texts, wanted);
    if order.len() == n {
        let mut packages: Vec<ResolvedNode> = Vec::new();
        let mut j: usize = 0;
        while j < n
            invariant
                all == views(nodes@),
                n == nodes@.len(),
                order@.len() == n,
                is_build_order(texts, graph, order@),
                graph.len() == n,
                j <= n,
                packages@.len() == j,
                forall|k: int| 0 <= k < j ==> (#[trigger] packages@[k])@ == all[order@[k] as int],
            decreases n - j,
        {
            let v: usize = order[j];
            assert(all[v as int] == nodes@[v as int]@);
            packages.push(nodes[v].clone());
            j = j + 1;
        }
        proof {
            let out = views(packages@);
            assert(out =~= by_order(all, order@));
            lemma_all_listed(order@, n as int);
            lemma_build_order_names(texts, wanted, order@);
            assert(node_names(out) =~= by_order(texts, order@));
            assert(node_deps(out) =~= by_order(wanted, order@));
            assert forall|x: ResolvedNodeView| #[trigger] out.contains(x) <==> all.contains(x) by {
                if out.contains(x) {
                    let k = choose|k: int| 0 <= k < out.len() && out[k] == x;
                    assert(all[order@[k] as int] == x);
                }
                if all.contains(x) {
                    let k = choose|k: int| 0 <= k < all.len() && all[k] == x;
                    assert(order@.contains(k as usize));
                    let m = choose|m: int| 0 <= m < order@.len() && order@[m] == k as usize;
                    assert(out[m] == x);
                }
            }
            assert forall|k: int| 0 <= k < n implies #[trigger] can_be_built(all, k) by {
                assert(order@.contains(k as usize));
            }
            lemma_stuck(all, n as int);
        }
        Ok(packages)
    } else {
        let built = marks(&order, n);
        let mut stuck: Vec<String> = Vec::new();
        let mut j: usize = 0;
        while j < n
            invariant
                all == views(nodes@),
                n == nodes@.len(),
                graph == name_graph(node_names(all), node_deps(all)),
                forall|v: usize| v < n ==> (#[trigger] order@.contains(v) <==> is_settled(graph, v)),
                built@.len() == n,
                forall|v: usize| v < n ==> #[trigger] built@[v as int] == order@.contains(v),
                j <= n,
                views(stuck@) == stuck_upto(all, j as int),
            decreases n - j,
        {
            assert(order@.contains(j) <==> can_be_built(all, j as int));
            if !built[j] {
                assert(all[j as int] == nodes@[j as int]@);
                let name = nodes[j].name.clone();
                proof {
                    lemma_views_push(stuck@, name);
                }
                stuck.push(name);
            }
            j = j + 1;
        }
        proof {
            if stuck@.len() == 0 {
                assert(stuck_names(all).len() == 0);
                lemma_stuck(all, n as int);
                assert forall|v: usize| v < n implies #[trigger] order@.contains(v) by {
                    assert(can_be_built(all, v as int));
                }
                lemma_covers(order@, n as int);
            }
        }
        Err(ResolveError::Cycle(stuck))
    }
}

/// Nothing is stuck where every package can be built, and the other way
/// round.
proof fn lemma_stuck(nodes: Seq<ResolvedNodeView>, n: int)
    requires
        0 <= n <= nodes.len(),
    ensures
        stuck_upto(nodes, n).len() == 0 <==> forall|i: int| 0 <= i < n ==> #[trigger] can_be_built(nodes, i),
    decreases n,
{
    if n > 0 {
        lemma_stuck(nodes, n - 1);
        if stuck_upto(nodes, n).len() > 0 {
            if can_be_built(nodes, n - 1) {
                let i = choose|i: int| 0 <= i < n - 1 && !#[trigger] can_be_built(nodes, i);
                assert(!can_be_built(nodes, i));
            } else {
                assert(!can_be_built(nodes, n - 1));
            }
        }
    }
}

/// In sorted packages, whatever a package depends on stands before it.
pub proof fn law_dependencies_come_first(nodes: Seq<ResolvedNodeView>, sorted: Seq<ResolvedNodeView>, i: int, k: int)
    requires
        is_sorted_form(nodes, sorted),
        0 <= i < sorted.len(),
        0 <= k < sorted[i].direct_deps.len(),
    ensures
        position(node_names(sorted), sorted[i].direct_deps[k].0) < i,
{
    let deps = node_deps(sorted)[i];
    lemma_last_position(node_names(sorted), deps);
    assert(position(node_names(sorted), deps[k]) <= last_position(node_names(sorted), deps));
}

/// The sorted form of packages is fixed by the packages alone: it does not
/// depend on the order in which they were found.
pub proof fn law_sorted_form_is_unique(
    nodes: Seq<ResolvedNodeView>,
    others: Seq<ResolvedNodeView>,
    a: Seq<ResolvedNodeView>,
    b: Seq<ResolvedNodeView>,
)
    requires
        node_names(nodes).no_duplicates(),
        nodes.len() == others.len(),
        forall|x: ResolvedNodeView| #[trigger] nodes.contains(x) <==> others.contains(x),
        is_sorted_form(nodes, a),
        is_sorted_form(others, b),
    ensures
        a == b,
{
    let p = name_deps(a);
    let q = name_deps(b);
    assert(firsts(p) =~= node_names(a) && seconds(p) =~= node_deps(a));
    assert(firsts(q) =~= node_names(b) && seconds(q) =~= node_deps(b));
    assert forall|x: (Text, Seq<Text>)| #[trigger] p.contains(x) <==> q.contains(x) by {
        if p.contains(x) {
            let i = choose|i: int| 0 <= i < p.len() && p[i] == x;
            assert(a.contains(a[i]));
            assert(nodes.contains(a[i]));
            assert(b.contains(a[i]));
            let j = choose|j: int| 0 <= j < b.len() && b[j] == a[i];
            assert(q[j] == x);
        }
        if q.contains(x) {
            let i = choose|i: int| 0 <= i < q.len() && q[i] == x;
            assert(b.contains(b[i]));
            assert(nodes.contains(b[i]));
            assert(a.contains(b[i]));
            let j = choose|j: int| 0 <= j < a.len() && a[j] == b[i];
            assert(p[j] == x);
        }
    }
    law_dependency_order_is_unique(p, q);
    assert forall|i: int| 0 <= i < a.len() implies a[i] == b[i] by {
        assert(p[i] == q[i]);
        assert(a.contains(a[i]) && b.contains(b[i]));
        assert(nodes.contains(a[i]) && nodes.contains(b[i]));
        let j = choose|j: int| 0 <= j < nodes.len() && nodes[j] == a[i];
        let k = choose|k: int| 0 <= k < nodes.len() && nodes[k] == b[i];
        assert(node_names(nodes)[j] == node_names(nodes)[k]);
    }
    assert(a =~= b);
}

/// Packages with the names of what they depend on.
spec fn name_deps(nodes: Seq<ResolvedNodeView>) -> Seq<(Text, Seq<Text>)> {
    Seq::new(nodes.len(), |i: int| (node_names(nodes)[i], node_deps(nodes)[i]))
}

/// Packages are stuck just where some of them depend on each other in a
/// circle.
pub proof fn law_stuck_means_cycle(nodes: Seq<ResolvedNodeView>)
    requires
        nodes.len() <= usize::MAX,
    ensures
        stuck_names(nodes).len() > 0 <==> exists|c: Seq<usize>|
            is_cycle(name_graph(node_names(nodes), node_deps(nodes)), c),
{
    let graph = name_graph(node_names(nodes), node_deps(nodes));
    lemma_stuck(nodes, nodes.len() as int);
    lemma_name_graph(node_names(nodes), node_deps(nodes));
    if stuck_names(nodes).len() > 0 {
        let i = choose|i: int| 0 <= i < nodes.len() && !#[trigger] can_be_built(nodes, i);
        law_unsettled_means_cycle(graph, i as usize);
    }
    if exists|c: Seq<usize>| is_cycle(graph, c) {
        let c = choose|c: Seq<usize>| is_cycle(graph, c);
        law_cycle_is_never_settled(graph, c, 0);
        assert(!can_be_built(nodes, c[0] as int));
    }
}

/// The names that are left out of a package's content: what installations
/// leave behind.
pub open spec fn content_excludes_view() -> Seq<Text> {
    seq![".neptune"@, "neptune.lock"@, "nelua_modules"@]
}

/// The names that are left out of a package's content: what installations
/// leave behind.
pub fn content_excludes() -> (names: Vec<String>)
    ensures
        views(names@) == content_excludes_view(),
{
    let mut names: Vec<String> = Vec::new();
    names.push(String::from_str(".neptune"));
    names.push(String::from_str("neptune.lock"));
    names.push(String::from_str("nelua_modules"));
    assert(views(names@) =~= content_excludes_view());
    names
}

/// The content hash of a package in a directory, from its files.
pub fn compute_path_content_hash(files: Vec<FileEntry>) -> (hash: String)
    ensures
        hash@ == sha256_text(entries_bytes(entries_sorted(views(files@)))),
        hash@.len() == 64,
{
    sha256_of_dir(files)
}

/// What a package depends on and which version it has are what its manifest
/// says, whatever else the manifest holds: the dependencies are those under
/// `dependencies`, and no others. A package without a manifest depends on
/// nothing and has the version that is declared for it, else `0.0.0`.
pub proof fn law_package_follows_manifest(
    name: Text,
    dep: DepSpecView,
    request: SourceRequestView,
    found: Text,
    manifest: Option<ManifestView>,
)
    ensures
        ({
            let node = resolved_node(name, dep, request, found, manifest);
            &&& manifest matches Some(m) ==> node.direct_deps == m.dependencies && node.version == m.version
            &&& manifest is None ==> node.direct_deps.len() == 0
            &&& manifest is None ==> (dep matches DepSpecView::Detailed { version, .. } ==> (version matches Some(v)
                ==> node.version == v))
            &&& manifest is None ==> (dep matches DepSpecView::Detailed { version, .. } ==> (version is None
                ==> node.version == "0.0.0"@))
            &&& manifest is None ==> (dep is VersionReq ==> node.version == "0.0.0"@)
        }),
{
}

/// Manifests that differ in nothing but what development needs make the same
/// package.
pub proof fn law_development_does_not_count(
    name: Text,
    dep: DepSpecView,
    request: SourceRequestView,
    found: Text,
    a: ManifestView,
    b: ManifestView,
)
    requires
        a.version == b.version,
        a.dependencies == b.dependencies,
    ensures
        resolved_node(name, dep, request, found, Some(a)) == resolved_node(name, dep, request, found, Some(b)),
{
}

/// A package bears the name that it is asked for by, and is known by where it
/// was found: the directory's path, or the repository and the commit.
pub proof fn law_package_is_where_found(
    name: Text,
    dep: DepSpecView,
    request: SourceRequestView,
    found: Text,
    manifest: Option<ManifestView>,
)
    ensures
        ({
            let node = resolved_node(name, dep, request, found, manifest);
            &&& node.name == name
            &&& node.id.name == name
            &&& found_id(name, request, found) == node.id
            &&& request is Path ==> {
                &&& node.source == (ResolvedSourceView::Path { abs_path: found })
                &&& node.id.source_fingerprint == found
            }
            &&& request matches SourceRequestView::Git { url, .. } ==> {
                &&& node.source == (ResolvedSourceView::Git { url, rev: found })
                &&& node.id.source_fingerprint == url + "#"@ + found
            }
        }),
{
}

/// Packages found in different directories, or at different commits of one
/// repository, have different ids; found in the same place they have one id.
pub proof fn law_ids_tell_places_apart(name: Text, a: SourceRequestView, b: SourceRequestView, x: Text, y: Text)
    ensures
        a is Path && b is Path ==> (found_id(name, a, x) == found_id(name, b, y) <==> x == y),
        a matches SourceRequestView::Git { url: u, .. } ==> (b matches SourceRequestView::Git { url: v, .. } ==> (u == v
            ==> (found_id(name, a, x) == found_id(name, b, y) <==> x == y))),
{
    if a is Git && b is Git && a->url == b->url {
        let head = a->url + "#"@;
        assert((head + x).skip(head.len() as int) =~= x);
        assert((head + y).skip(head.len() as int) =~= y);
    }
}

/// A dependency that states a version requirement demands that requirement,
/// whatever source it names. One that states none demands its source: the
/// repository at the revision that is looked for, or the path; one that states
/// nothing demands nothing in particular.
pub proof fn law_demand(dep: DepSpecView)
    ensures
        dep matches DepSpecView::VersionReq(v) ==> demand_text(dep) == v,
        dep matches DepSpecView::Detailed { version, .. } ==> (version matches Some(v) ==> demand_text(dep) == v),
        dep matches DepSpecView::Detailed { version, git, rev, tag, branch, .. } ==> (version is None ==> (git matches Some(
            url,
        ) ==> demand_text(dep) == "git+"@ + url + "#"@ + pin(rev, tag, branch))),
        dep matches DepSpecView::Detailed { version, git, rev, tag, branch, path, .. } ==> (version is None && path is None
            ==> (git matches Some(url) ==> wanted_source(dep) == Some(
            SourceRequestView::Git { url, rev: pin(rev, tag, branch) },
        ))),
        dep matches DepSpecView::Detailed { version, git, path, .. } ==> (version is None && git is None ==> (
        path matches Some(p) ==> demand_text(dep) == "path:"@ + p)),
        dep matches DepSpecView::Detailed { version, git, path, .. } ==> (version is None && git is None && path is None
            ==> demand_text(dep) == "*"@),
{
}

/// Where a dependency says to look: its path where it has one, else its
/// repository, at the commit, tag or branch that it sets; `HEAD` only where it
/// sets none. One that names neither, or a version alone, is looked for
/// nowhere.
pub proof fn law_where_to_look(dep: DepSpecView)
    ensures
        dep is VersionReq ==> wanted_source(dep) is None,
        dep matches DepSpecView::Detailed { path, .. } ==> (path matches Some(p) ==> wanted_source(dep) == Some(
            SourceRequestView::Path { rel: p },
        )),
        dep matches DepSpecView::Detailed { git, path, .. } ==> (git is None && path is None ==> wanted_source(
            dep,
        ) is None),
        dep matches DepSpecView::Detailed { git, rev, tag, branch, path, .. } ==> (path is None ==> (git matches Some(
            url,
        ) ==> {
            &&& tag is None && branch is None ==> (rev matches Some(r) ==> wanted_source(dep) == Some(
                SourceRequestView::Git { url, rev: r },
            ))
            &&& rev is None && branch is None ==> (tag matches Some(t) ==> wanted_source(dep) == Some(
                SourceRequestView::Git { url, rev: t },
            ))
            &&& rev is None && tag is None ==> (branch matches Some(b) ==> wanted_source(dep) == Some(
                SourceRequestView::Git { url, rev: b },
            ))
            &&& rev is None && tag is None && branch is None ==> wanted_source(dep) == Some(
                SourceRequestView::Git { url, rev: "HEAD"@ },
            )
        })),
{
}

/// Where a dependency sets several of commit, tag and branch, the commit counts
/// before the tag and the tag before the branch; where it sets none, it is
/// `HEAD`.
pub proof fn law_pins_in_turn(rev: Option<Text>, tag: Option<Text>, branch: Option<Text>)
    ensures
        rev matches Some(r) ==> pin(rev, tag, branch) == r,
        rev is None ==> (tag matches Some(t) ==> pin(rev, tag, branch) == t),
        rev is None && tag is None ==> (branch matches Some(b) ==> pin(rev, tag, branch) == b),
        rev is None && tag is None && branch is None ==> pin(rev, tag, branch) == "HEAD"@,
{
}

/// A dependency that says nowhere to look is refused as coming from a registry
/// where it is a version alone, and otherwise as having no source; the report
/// names it and through whom it is asked for.
pub proof fn law_no_source(name: Text, dep: DepSpecView, chain: Text)
    ensures
        dep is VersionReq ==> source_fault(name, dep, chain) == (ResolveErrorView::Registry { name, chain }),
        dep is Detailed ==> source_fault(name, dep, chain) == (ResolveErrorView::NoSource { name, chain }),
{
}

/// A package is locked under its name, at its version, to the very place that
/// it was resolved to: the directory, or the repository and the commit. Its
/// dependencies are listed by name, all of them, in order.
pub proof fn law_locked_to_its_place(node: ResolvedNodeView, content_sha256: Text)
    ensures
        ({
            let locked = locked_node(node, content_sha256);
            &&& locked.name == node.name
            &&& locked.version == node.version
            &&& locked.content_sha256 == content_sha256
            &&& node.source matches ResolvedSourceView::Path { abs_path } ==> locked.source == (
            LockedSourceView::Path { path: abs_path })
            &&& node.source matches ResolvedSourceView::Git { url, rev } ==> locked.source == (
            LockedSourceView::Git { url, rev })
            &&& locked.dependencies.len() == node.direct_deps.len()
            &&& forall|k: int|
                0 <= k < node.direct_deps.len() ==> (#[trigger] locked.dependencies[k]).name == node.direct_deps[k].0
        }),
{
}

/// A repository is cached in a directory of its own for each revision, below
/// the project: the URL and the revision in plain characters, with a hyphen
/// between them.
pub proof fn law_cache_directory(root: FsPathView, url: Text, rev: Text)
    ensures
        ({
            let dir = repo_dir_view(root, url, rev);
            let n = root.parts.len() as int;
            &&& dir.base == root.base
            &&& dir.parts.len() == n + 4
            &&& dir.parts.take(n) == root.parts
            &&& dir.parts[n] == ".neptune"@
            &&& dir.parts[n + 1] == "cache"@
            &&& dir.parts[n + 2] == "git"@
            &&& dir.parts[n + 3] == sanitized(url) + "-"@ + sanitized(rev)
        }),
{
    assert(repo_dir_view(root, url, rev).parts.take(root.parts.len() as int) =~= root.parts);
}

/// A package's own path dependencies are seen from its directory, or from the
/// cache directory of its repository at its commit.
pub proof fn law_base_directory(root: FsPathView, source: ResolvedSourceView)
    ensures
        source matches ResolvedSourceView::Path { abs_path } ==> {
            &&& node_base_view(root, source).base == abs_path
            &&& node_base_view(root, source).parts.len() == 0
        },
        source matches ResolvedSourceView::Git { url, rev } ==> node_base_view(root, source) == repo_dir_view(
            root,
            url,
            rev,
        ),
{
}

/// The packages that are reported as stuck are those, in order, from which a
/// chain of dependencies does not end: no other is reported.
pub proof fn law_stuck_names(nodes: Seq<ResolvedNodeView>, name: Text)
    ensures
        stuck_names(nodes).contains(name) <==> exists|i: int|
            0 <= i < nodes.len() && !#[trigger] can_be_built(nodes, i) && nodes[i].name == name,
        stuck_names(nodes).len() <= nodes.len(),
{
    lemma_stuck_contains(nodes, nodes.len() as int, name);
}

proof fn lemma_stuck_contains(nodes: Seq<ResolvedNodeView>, n: int, name: Text)
    requires
        0 <= n <= nodes.len(),
    ensures
        stuck_upto(nodes, n).contains(name) <==> exists|i: int|
            0 <= i < n && !#[trigger] can_be_built(nodes, i) && nodes[i].name == name,
        stuck_upto(nodes, n).len() <= n,
    decreases n,
{
    if n > 0 {
        lemma_stuck_contains(nodes, n - 1, name);
        let front = stuck_upto(nodes, n - 1);
        let all = stuck_upto(nodes, n);
        if all.contains(name) {
            let k = choose|k: int| 0 <= k < all.len() && all[k] == name;
            if k < front.len() {
                assert(front[k] == name);
                let i = choose|i: int| 0 <= i < n - 1 && !#[trigger] can_be_built(nodes, i) && nodes[i].name == name;
                assert(!can_be_built(nodes, i));
            } else {
                assert(!can_be_built(nodes, n - 1));
            }
        }
        if exists|i: int| 0 <= i < n && !#[trigger] can_be_built(nodes, i) && nodes[i].name == name {
            let i = choose|i: int| 0 <= i < n && !#[trigger] can_be_built(nodes, i) && nodes[i].name == name;
            if i < n - 1 {
                assert(front.contains(name));
                let k = choose|k: int| 0 <= k < front.len() && front[k] == name;
                assert(all[k] == name);
            } else {
                assert(all[front.len() as int] == name);
            }
        }
    }
}

/// Sorting packages keeps them all and adds none.
pub proof fn law_sorting_keeps_packages(nodes: Seq<ResolvedNodeView>, sorted: Seq<ResolvedNodeView>, x: ResolvedNodeView)
    requires
        is_sorted_form(nodes, sorted),
    ensures
        sorted.len() == nodes.len(),
        sorted.contains(x) <==> nodes.contains(x),
{
}

/// Among sorted packages those that depend on no other come first, in the order
/// of their names.
pub proof fn law_sorted_by_name(nodes: Seq<ResolvedNodeView>, sorted: Seq<ResolvedNodeView>, i: int, j: int)
    requires
        is_sorted_form(nodes, sorted),
        0 <= i < j < sorted.len(),
        forall|k: int|
            0 <= k < sorted[j].direct_deps.len() ==> !node_names(sorted).contains(
                (#[trigger] sorted[j].direct_deps[k]).0,
            ),
    ensures
        text_lt(sorted[i].name, sorted[j].name),
        forall|k: int|
            0 <= k < sorted[i].direct_deps.len() ==> !node_names(sorted).contains(
                (#[trigger] sorted[i].direct_deps[k]).0,
            ),
{
    let names = node_names(sorted);
    let a = node_deps(sorted)[i];
    let b = node_deps(sorted)[j];
    lemma_last_position(names, a);
    lemma_last_position(names, b);
    assert(last_position(names, b) == -1) by {
        if last_position(names, b) >= 0 {
            let k = choose|k: int| 0 <= k < b.len() && position(names, #[trigger] b[k]) == last_position(names, b);
            lemma_position(names, b[k]);
            assert(sorted[j].direct_deps[k].0 == b[k]);
        }
    }
    assert(stands_before(names, a, names[i], b, names[j]));
    assert forall|k: int| 0 <= k < sorted[i].direct_deps.len() implies !names.contains(
        (#[trigger] sorted[i].direct_deps[k]).0,
    ) by {
        assert(a[k] == sorted[i].direct_deps[k].0);
        lemma_position(names, a[k]);
    }
}

/// What installations leave behind is left out of a package's content, and
/// nothing else.
pub proof fn law_content_excludes(name: Text)
    ensures
        content_excludes_view().contains(name) <==> name == ".neptune"@ || name == "neptune.lock"@ || name
            == "nelua_modules"@,
{
    let all = content_excludes_view();
    assert(all[0] == ".neptune"@);
    assert(all[1] == "neptune.lock"@);
    assert(all[2] == "nelua_modules"@);
}

/// The package that a dependency turns out to be depends on what its manifest
/// lists under `dependencies`, and has the manifest's version.
pub proof fn law_resolved_dependencies(
    name: &str,
    dep: &DepSpec,
    request: &SourceRequest,
    found: &str,
    manifest: &Manifest,
    node: ResolvedNode,
)
    requires
        manifest.wf(),
        call_ensures(resolve_one, (name, dep, request, found, Some(manifest)), node),
    ensures
        node.direct_deps@ == manifest.dependencies@,
        node.version@ == manifest.version@,
        node.name@ == name@,
        *request is Path ==> (node.source matches ResolvedSource::Path { abs_path } && abs_path@ == found@),
        *request matches SourceRequest::Git { url, .. } ==> (node.source matches ResolvedSource::Git { url: u, rev }
            && u@ == url@ && rev@ == found@),
{
}

/// A dependency that states a version requirement demands it, whatever source
/// it names.
pub proof fn law_stated_requirement(dep: &DepSpec, text: String)
    requires
        call_ensures(dep_spec_to_req_string, (dep,), text),
    ensures
        dep@.requirement() matches Some(v) ==> text@ == v,
        *dep matches DepSpec::VersionReq(v) ==> text@ == v@,
        *dep matches DepSpec::Detailed { version, .. } ==> (version matches Some(v) ==> text@ == v@),
{
}

/// A dependency on a Git repository is looked for there, at whichever of
/// commit, tag and branch it sets, and at `HEAD` where it sets none.
pub proof fn law_git_request(
    name: &str,
    dep: &DepSpec,
    chain: &str,
    wanted: Result<SourceRequest, ResolveError>,
    repository: String,
    pinned: String,
)
    requires
        call_ensures(source_request, (name, dep, chain), wanted),
        *dep matches DepSpec::Detailed { git, rev, tag, branch, path, .. } && git == Some(repository) && path is None
            && {
            ||| rev == Some(pinned) && tag is None && branch is None
            ||| rev is None && tag == Some(pinned) && branch is None
            ||| rev is None && tag is None && branch == Some(pinned)
            ||| rev is None && tag is None && branch is None && pinned@ == "HEAD"@
        },
    ensures
        wanted matches Ok(SourceRequest::Git { url, rev }) && url@ == repository@ && rev@ == pinned@,
{
}

/// The lockfile pins a package from a Git repository to that repository and its
/// commit, and one from a directory to the directory.
pub proof fn law_locked_source(node: &ResolvedNode, content_sha256: String, locked: LockedPackage)
    requires
        call_ensures(node_to_locked_package, (node, content_sha256), locked),
    ensures
        node.source matches ResolvedSource::Git { url, rev } ==> (locked.source matches LockedSource::Git {
            url: u,
            rev: r,
        } && u@ == url@ && r@ == rev@),
        node.source matches ResolvedSource::Path { abs_path } ==> (locked.source matches LockedSource::Path { path }
            && path@ == abs_path@),
        locked.name@ == node.name@,
        locked.version@ == node.version@,
        locked.content_sha256@ == content_sha256@,
{
}

/// The message on a conflict tells the package and, demand by demand, who
/// demands what of it; it tells the two kinds of conflict apart.
pub proof fn law_conflict_message(c: ConflictView, k: int)
    ensures
        tells(c.text(), c.package_name),
        0 <= k < c.demands.len() ==> tells(c.text(), c.demands[k].requester_chain) && tells(
            c.text(),
            c.demands[k].version_req,
        ),
        c.kind is SourceMismatch <==> c.text()[0] == '来',
        c.kind is VersionIncompatible <==> c.text()[0] == '版',
{
    reveal_strlit("来源冲突：包 \"");
    reveal_strlit("版本冲突：包 \"");
    let lines = demand_lines(c.demands);
    let head = if c.kind is SourceMismatch {
        "来源冲突：包 \""@
    } else {
        "版本冲突：包 \""@
    };
    let tail = if c.kind is SourceMismatch {
        "\" 被多个依赖从不同来源引入：\n"@
    } else {
        "\" 被多个依赖以不兼容的版本要求引入：\n"@
    };
    assert(c.text() =~= head + c.package_name + (tail + lines));
    lemma_tells(head, c.package_name, tail + lines);
    assert(c.text()[0] == head[0]);
    if 0 <= k < c.demands.len() {
        lemma_demand_told(c.demands, k);
        assert(c.text() =~= head + c.package_name + tail + lines);
        lemma_tells_within(head + c.package_name + tail, lines, Seq::empty(), c.demands[k].requester_chain);
        lemma_tells_within(head + c.package_name + tail, lines, Seq::empty(), c.demands[k].version_req);
    }
}

proof fn lemma_demand_told(demands: Seq<ConflictDemandView>, k: int)
    requires
        0 <= k < demands.len(),
    ensures
        tells(demand_lines(demands), demands[k].requester_chain),
        tells(demand_lines(demands), demands[k].version_req),
    decreases demands.len(),
{
    let front = demand_lines(demands.drop_last());
    let last = demands.last();
    let all = demand_lines(demands);
    if k < demands.len() - 1 {
        lemma_demand_told(demands.drop_last(), k);
        let after = "  - "@ + last.requester_chain + " 要求 "@ + last.version_req + "\n"@;
        assert(all =~= Seq::<char>::empty() + front + after);
        lemma_tells_within(Seq::empty(), front, after, demands[k].requester_chain);
        lemma_tells_within(Seq::empty(), front, after, demands[k].version_req);
    } else {
        let after = " 要求 "@ + last.version_req + "\n"@;
        assert(all =~= front + "  - "@ + last.requester_chain + after);
        lemma_tells(front + "  - "@, last.requester_chain, after);
        lemma_tells(front + "  - "@ + last.requester_chain + " 要求 "@, last.version_req, "\n"@);
    }
}

/// The message on a failed resolution tells the dependency, or every package
/// that is stuck.
pub proof fn law_resolve_message(fault: ResolveErrorView, k: int)
    ensures
        fault matches ResolveErrorView::Registry { name, .. } ==> tells(fault.text(), name),
        fault matches ResolveErrorView::NoSource { name, .. } ==> tells(fault.text(), name),
        fault matches ResolveErrorView::Cycle(names) ==> (0 <= k < names.len() ==> tells(fault.text(), names[k])),
{
    match fault {
        ResolveErrorView::Registry { name, .. } => {
            lemma_tells("v0.3 原型暂不支持 registry 依赖（"@, name, "），请使用 path 或 git"@);
        },
        ResolveErrorView::NoSource { name, .. } => {
            lemma_tells("依赖 "@, name, " 必须设置 path 或 git"@);
        },
        ResolveErrorView::Cycle(names) => {
            if 0 <= k < names.len() {
                lemma_joined_tells(names, ", "@, k);
                lemma_tells_within("检测到循环依赖，涉及包："@, joined(names, ", "@), Seq::empty(), names[k]);
            }
        },
    }
}

proof fn lemma_joined_tells(names: Seq<Text>, sep: Text, k: int)
    requires
        0 <= k < names.len(),
    ensures
        tells(joined(names, sep), names[k]),
    decreases names.len(),
{
    if names.len() == 1 {
        assert(Seq::<char>::empty() + names[0] =~= names[0]);
        lemma_tells(Seq::empty(), names[0], Seq::empty());
    } else {
        let front = names.drop_last();
        if k < front.len() {
            lemma_joined_tells(front, sep, k);
            assert(joined(names, sep) =~= Seq::<char>::empty() + joined(front, sep) + (sep + names.last()));
            lemma_tells_within(Seq::empty(), joined(front, sep), sep + names.last(), names[k]);
        } else {
            lemma_tells(joined(front, sep) + sep, names[k], Seq::empty());
        }
    }
}

/// Whether `a` is the place of the last of a package's dependencies among
/// packages, or -1 where none of them is there.
pub open spec fn is_last_dependency(packages: Seq<ResolvedNodeView>, node: ResolvedNodeView, a: int) -> bool {
    &&& -1 <= a < packages.len()
    &&& a >= 0 ==> exists|k: int|
        0 <= k < node.direct_deps.len() && (#[trigger] node.direct_deps[k]).0 == packages[a].name
    &&& forall|k: int, q: int|
        #![trigger node.direct_deps[k], packages[q]]
        0 <= k < node.direct_deps.len() && 0 <= q < packages.len() && node.direct_deps[k].0 == packages[q].name ==> q
            <= a
}

/// Sorted packages come in turn: each after the last of its dependencies, and
/// of two packages the one whose last dependency stands earlier comes first;
/// where these are the same, or there are none, the names decide.
pub proof fn law_sorted_in_turn(
    nodes: Seq<ResolvedNodeView>,
    sorted: Seq<ResolvedNodeView>,
    i: int,
    j: int,
    a: int,
    b: int,
)
    requires
        is_sorted_form(nodes, sorted),
        node_names(sorted).no_duplicates(),
        0 <= i < j < sorted.len(),
        is_last_dependency(sorted, sorted[i], a),
        is_last_dependency(sorted, sorted[j], b),
    ensures
        a < i,
        b < j,
        a < b || a == b && text_lt(sorted[i].name, sorted[j].name),
{
    lemma_last_dependency(sorted, i, a);
    lemma_last_dependency(sorted, j, b);
    let names = node_names(sorted);
    let deps = node_deps(sorted);
    assert(stands_before(names, deps[i], names[i], deps[j], names[j]));
    assert(last_position(names, deps[i]) < i && last_position(names, deps[j]) < j);
}

proof fn lemma_last_dependency(sorted: Seq<ResolvedNodeView>, i: int, a: int)
    requires
        node_names(sorted).no_duplicates(),
        0 <= i < sorted.len(),
        is_last_dependency(sorted, sorted[i], a),
    ensures
        last_position(node_names(sorted), node_deps(sorted)[i]) == a,
{
    let names = node_names(sorted);
    let ds = node_deps(sorted)[i];
    let node = sorted[i];
    lemma_last_position(names, ds);
    let last = last_position(names, ds);
    if a >= 0 {
        let k = choose|k: int|
            0 <= k < node.direct_deps.len() && (#[trigger] node.direct_deps[k]).0 == sorted[a].name;
        assert(ds[k] == names[a]);
        lemma_position(names, ds[k]);
        assert(position(names, ds[k]) == a);
    }
    if last >= 0 {
        let k = choose|k: int| 0 <= k < ds.len() && position(names, #[trigger] ds[k]) == last;
        lemma_position(names, ds[k]);
        assert(node.direct_deps[k].0 == ds[k] && sorted[last].name == names[last]);
    }
}

/// The wording of each message, which users search for.
pub proof fn law_resolve_wording(name: Text, chain: Text, names: Seq<Text>, demands: Seq<ConflictDemandView>)
    ensures
        (ResolveErrorView::Registry { name, chain }).text() == "v0.3 原型暂不支持 registry 依赖（"@ + name
            + "），请使用 path 或 git"@,
        (ResolveErrorView::NoSource { name, chain }).text() == "依赖 "@ + name + " 必须设置 path 或 git"@,
        ResolveErrorView::Cycle(names).text() == "检测到循环依赖，涉及包："@ + joined(names, ", "@),
        (ConflictView { package_name: name, kind: ConflictKind::SourceMismatch, demands }).text()
            == "来源冲突：包 \""@ + name + "\" 被多个依赖从不同来源引入：\n"@ + demand_lines(demands),
        (ConflictView { package_name: name, kind: ConflictKind::VersionIncompatible, demands }).text()
            == "版本冲突：包 \""@ + name + "\" 被多个依赖以不兼容的版本要求引入：\n"@ + demand_lines(demands),
{
}

/// The lines on demands come one for each demand, in order: who demands it, and
/// what.
pub proof fn law_demand_lines(a: Seq<ConflictDemandView>, b: Seq<ConflictDemandView>, d: ConflictDemandView)
    ensures
        demand_lines(a + b) == demand_lines(a) + demand_lines(b),
        demand_lines(seq![d]) == "  - "@ + d.requester_chain + " 要求 "@ + d.version_req + "\n"@,
    decreases b.len(),
{
    reveal_with_fuel(demand_lines, 2);
    assert(seq![d].drop_last() =~= Seq::<ConflictDemandView>::empty());
    assert(demand_lines(seq![d]) =~= "  - "@ + d.requester_chain + " 要求 "@ + d.version_req + "\n"@);
    if b.len() == 0 {
        assert(a + b =~= a);
        assert(demand_lines(a) + demand_lines(b) =~= demand_lines(a));
    } else {
        law_demand_lines(a, b.drop_last(), d);
        assert((a + b).drop_last() =~= a + b.drop_last());
        assert(demand_lines(a + b) =~= demand_lines(a) + demand_lines(b));
    }
}

/// Packages that depend on each other in a circle, each on the next and the last
/// on the first, are all stuck.
pub proof fn law_circle_is_stuck(nodes: Seq<ResolvedNodeView>, circle: Seq<usize>, i: int)
    requires
        nodes.len() <= usize::MAX,
        node_names(nodes).no_duplicates(),
        forall|a: int| 0 <= a < circle.len() ==> (#[trigger] circle[a]) < nodes.len(),
        forall|a: int|
            #![trigger circle[a]]
            0 <= a < circle.len() ==> dep_names(nodes[circle[a] as int].direct_deps).contains(
                nodes[circle[if a + 1 < circle.len() {
                    a + 1
                } else {
                    0
                }] as int].name,
            ),
        0 <= i < circle.len(),
    ensures
        !can_be_built(nodes, circle[i] as int),
        stuck_names(nodes).contains(nodes[circle[i] as int].name),
{
    let names = node_names(nodes);
    let deps = node_deps(nodes);
    let graph = name_graph(names, deps);
    assert forall|a: int, b: int| 0 <= a < circle.len() && b == (if a + 1 < circle.len() {
        a + 1
    } else {
        0
    }) implies #[trigger] depends_at(graph, circle, a, b) by {
        let v = circle[a] as int;
        let w = circle[b] as int;
        let ds = deps[v];
        assert(ds.contains(names[w]));
        let k = choose|k: int| 0 <= k < ds.len() && ds[k] == names[w];
        lemma_position(names, ds[k]);
        assert(position(names, ds[k]) == w);
        lemma_found_deps(names, ds);
    }
    assert forall|a: int| 0 <= a < circle.len() - 1 implies #[trigger] depends_at(graph, circle, a, a + 1) by {}
    assert(depends_at(graph, circle, circle.len() - 1, 0));
    assert(is_cycle(graph, circle));
    law_cycle_is_never_settled(graph, circle, i);
    assert(!can_be_built(nodes, circle[i] as int));
    law_stuck_names(nodes, nodes[circle[i] as int].name);
}

} // verus!
