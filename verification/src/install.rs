//! What an installation does with the lockfile.
use vstd::prelude::*;
use vstd::string::*;

use crate::graph::{lemma_position, position};
use crate::lockfile::{
    law_written_head, law_written_lock, lemma_packages_fault, packages_sorted, sort_packages, LockError, LockErrorView, LockedDep,
    LockedDepView, LockedPackage, LockedPackageView, LockedSource, LockedSourceView, Lockfile, LockfileView, LOCK_VERSION,
};
use crate::manifest::dep_names;
use crate::resolution::{is_asked_for, is_complete, node_asks};
use crate::resolver::{
    is_sorted_form, law_sorted_form_is_unique, locked_node, node_names, node_to_locked_package, Conflict,
    ConflictView, ResolvedNode, ResolvedNodeView, ResolvedSource, ResolvedSourceView,
};
use crate::text::{opt_view, same_text, text_lt, views, Text};

verus! {

/// What is to be done about the lockfile.
#[derive(Debug, Clone, Copy, PartialEq, Eq, Structural)]
pub enum LockPlan {
    /// It is used as it is.
    Keep,
    /// It does not fit the manifest or a package any more: dependencies are
    /// resolved anew.
    Refresh,
    /// There is none to go by: dependencies are resolved.
    Create,
}

/// Why an installation is refused.
#[derive(Debug)]
pub enum InstallError {
    Lock(LockError),
    /// The lockfile may not be changed but does not fit the manifest.
    FrozenStale,
    /// The lockfile may not be changed but there is none to go by.
    FrozenMissing,
    /// A package comes from a registry, which is not supported.
    Registry,
}

#[verifier::ext_equal]
pub enum InstallErrorView {
    Lock(LockErrorView),
    FrozenStale,
    FrozenMissing,
    Registry,
}

impl View for InstallError {
    type V = InstallErrorView;

    open spec fn view(&self) -> InstallErrorView {
        match *self {
            InstallError::Lock(e) => InstallErrorView::Lock(e@),
            InstallError::FrozenStale => InstallErrorView::FrozenStale,
            InstallError::FrozenMissing => InstallErrorView::FrozenMissing,
            InstallError::Registry => InstallErrorView::Registry,
        }
    }
}

impl InstallErrorView {
    /// The message for the user.
    pub open spec fn text(self) -> Text {
        match self {
            InstallErrorView::Lock(e) => e.text(),
            InstallErrorView::FrozenStale =>
                "--frozen 模式下检测到 manifest 或 lockfile schema 已变化。\n请在非 frozen 模式下运行 npt install 更新 lockfile，\n然后将新的 neptune.lock 提交到版本控制。"@,
            InstallErrorView::FrozenMissing =>
                "--frozen 模式下未找到 neptune.lock，请先在非 frozen 模式下运行 npt install"@,
            InstallErrorView::Registry => "v0.3 原型暂不支持 registry 依赖，将在 v0.4 实现"@,
        }
    }
}

impl InstallError {
    /// The message for the user.
    pub fn message(&self) -> (text: String)
        ensures
            text@ == self@.text(),
    {
        match self {
            InstallError::Lock(e) => e.message(),
            InstallError::FrozenStale => String::from_str(
                "--frozen 模式下检测到 manifest 或 lockfile schema 已变化。\n请在非 frozen 模式下运行 npt install 更新 lockfile，\n然后将新的 neptune.lock 提交到版本控制。",
            ),
            InstallError::FrozenMissing => String::from_str(
                "--frozen 模式下未找到 neptune.lock，请先在非 frozen 模式下运行 npt install",
            ),
            InstallError::Registry => String::from_str("v0.3 原型暂不支持 registry 依赖，将在 v0.4 实现"),
        }
    }
}

/// Whether an existing lockfile is to be read: not where dependencies are to
/// be resolved by force.
pub fn reads_lock(force: bool, exists: bool) -> (reads: bool)
    ensures
        reads == (!force && exists),
{
    !force && exists
}

/// Whether a package from a path is as the lockfile pins it; `dir_hash` is the
/// hash of its directory, none where there is no directory to be read, which
/// tells of no change.
pub open spec fn source_fits(package: LockedPackageView, dir_hash: Option<Text>) -> bool {
    package.source is Path && dir_hash is Some ==> dir_hash == Some(package.content_sha256)
}

/// The views of hashes.
pub open spec fn hash_views(dir_hashes: Seq<Option<String>>) -> Seq<Option<Text>> {
    Seq::new(dir_hashes.len(), |i: int| opt_view(dir_hashes[i]))
}

/// The hash in that place, if there is one.
pub open spec fn hash_at(dir_hashes: Seq<Option<Text>>, i: int) -> Option<Text> {
    if 0 <= i < dir_hashes.len() {
        dir_hashes[i]
    } else {
        None
    }
}

/// Whether no package from a path has changed since it was locked.
pub open spec fn sources_fit(packages: Seq<LockedPackageView>, dir_hashes: Seq<Option<Text>>) -> bool {
    forall|i: int| 0 <= i < packages.len() ==> source_fits(#[trigger] packages[i], hash_at(dir_hashes, i))
}

/// What is to be done about the lockfile that was read, if one was, for the
/// manifest with that hash. `dir_hashes` holds, for each locked package from a
/// path, the hash that its directory has now, if it can be read. A lockfile is
/// kept where neither the manifest nor any of these packages has changed. A
/// frozen installation never resolves, and goes by the manifest alone.
pub open spec fn lock_plan(
    frozen: bool,
    lock: Option<LockfileView>,
    dir_hashes: Seq<Option<Text>>,
    manifest_sha: Text,
) -> Result<LockPlan, InstallErrorView> {
    match lock {
        Some(l) => match l.fault() {
            Some(fault) => Err(InstallErrorView::Lock(fault)),
            None => if !l.up_to_date(manifest_sha) {
                if frozen {
                    Err(InstallErrorView::FrozenStale)
                } else {
                    Ok(LockPlan::Refresh)
                }
            } else if frozen || sources_fit(l.packages, dir_hashes) {
                Ok(LockPlan::Keep)
            } else {
                Ok(LockPlan::Refresh)
            },
        },
        None => if frozen {
            Err(InstallErrorView::FrozenMissing)
        } else {
            Ok(LockPlan::Create)
        },
    }
}

/// Whether the plan rests on what the directories of packages hold.
pub open spec fn rests_on_sources(frozen: bool, lock: Option<LockfileView>, manifest_sha: Text) -> bool {
    !frozen && (lock matches Some(l) && l.fault() is None && l.up_to_date(manifest_sha))
}

/// Whether the directories of locked packages are to be read before the plan
/// is made.
pub fn reads_sources(frozen: bool, lock: Option<&Lockfile>, manifest_sha: &str) -> (reads: bool)
    ensures
        reads == rests_on_sources(frozen, lock_view(lock), manifest_sha@),
{
    match lock {
        Some(l) => !frozen && l.validate().is_ok() && l.is_up_to_date(manifest_sha),
        None => false,
    }
}

/// Where the plan does not rest on them, the hashes of directories make no
/// difference.
pub proof fn law_sources_matter(
    frozen: bool,
    lock: Option<LockfileView>,
    manifest_sha: Text,
    a: Seq<Option<Text>>,
    b: Seq<Option<Text>>,
)
    requires
        !rests_on_sources(frozen, lock, manifest_sha),
    ensures
        lock_plan(frozen, lock, a, manifest_sha) == lock_plan(frozen, lock, b, manifest_sha),
{
}

fn do_sources_fit(packages: &Vec<LockedPackage>, dir_hashes: &Vec<Option<String>>) -> (fit: bool)
    ensures
        fit == sources_fit(views(packages@), hash_views(dir_hashes@)),
{
    let ghost all = views(packages@);
    let ghost hashes = hash_views(dir_hashes@);
    let mut i: usize = 0;
    while i < packages.len()
        invariant
            all == views(packages@),
            hashes == hash_views(dir_hashes@),
            i <= all.len(),
            forall|k: int| 0 <= k < i ==> source_fits(#[trigger] all[k], hash_at(hashes, k)),
        decreases all.len() - i,
    {
        let package = &packages[i];
        assert(all[i as int] == package@);
        let fits = match &package.source {
            LockedSource::Path { .. } => if i < dir_hashes.len() {
                match &dir_hashes[i] {
                    Some(hash) => same_text(hash.as_str(), package.content_sha256.as_str()),
                    None => true,
                }
            } else {
                true
            },
            _ => true,
        };
        assert(fits == source_fits(all[i as int], hash_at(hashes, i as int)));
        if !fits {
            return false;
        }
        i = i + 1;
    }
    true
}

/// The view of an optional lockfile.
pub open spec fn lock_view(lock: Option<&Lockfile>) -> Option<LockfileView> {
    match lock {
        Some(l) => Some(l@),
        None => None,
    }
}

/// Decides what is to be done about the lockfile that was read, if one was,
/// for the manifest with that hash. `dir_hashes` holds, for each locked package
/// from a path, the hash that its directory has now, if it can be read.
pub fn plan_lock(
    frozen: bool,
    lock: Option<&Lockfile>,
    dir_hashes: &Vec<Option<String>>,
    manifest_sha: &str,
) -> (plan: Result<LockPlan, InstallError>)
    ensures
        ({
            let wanted = lock_plan(frozen, lock_view(lock), hash_views(dir_hashes@), manifest_sha@);
            match plan {
                Ok(p) => wanted == Ok::<LockPlan, InstallErrorView>(p),
                Err(e) => wanted == Err::<LockPlan, InstallErrorView>(e@),
            }
        }),
{
    match lock {
        Some(l) => match l.validate() {
            Err(fault) => Err(InstallError::Lock(fault)),
            Ok(_) => if !l.is_up_to_date(manifest_sha) {
                if frozen {
                    Err(InstallError::FrozenStale)
                } else {
                    Ok(LockPlan::Refresh)
                }
            } else if frozen || do_sources_fit(&l.packages, dir_hashes) {
                Ok(LockPlan::Keep)
            } else {
                Ok(LockPlan::Refresh)
            },
        },
        None => if frozen {
            Err(InstallError::FrozenMissing)
        } else {
            Ok(LockPlan::Create)
        },
    }
}

/// A frozen installation keeps the lockfile or is refused: it never resolves.
pub proof fn law_frozen_never_resolves(
    lock: Option<LockfileView>,
    dir_hashes: Seq<Option<Text>>,
    manifest_sha: Text,
)
    ensures
        match lock_plan(true, lock, dir_hashes, manifest_sha) {
            Ok(p) => p == LockPlan::Keep && lock is Some,
            Err(_) => true,
        },
{
}

/// Where a frozen installation goes ahead, and no package has changed, one that
/// is not frozen does the same.
pub proof fn law_frozen_agrees(lock: Option<LockfileView>, dir_hashes: Seq<Option<Text>>, manifest_sha: Text)
    requires
        lock_plan(true, lock, dir_hashes, manifest_sha) is Ok,
        lock matches Some(l) ==> sources_fit(l.packages, dir_hashes),
    ensures
        lock_plan(false, lock, dir_hashes, manifest_sha) == lock_plan(true, lock, dir_hashes, manifest_sha),
{
}

/// The lines of conflicts, each followed by an empty line.
pub open spec fn conflict_lines(conflicts: Seq<ConflictView>) -> Text
    decreases conflicts.len(),
{
    if conflicts.len() == 0 {
        Seq::empty()
    } else {
        conflict_lines(conflicts.drop_last()) + conflicts.last().text() + "\n"@
    }
}

/// The message that tells of conflicts.
pub open spec fn conflict_text(conflicts: Seq<ConflictView>) -> Text {
    "发现依赖冲突，无法继续安装：\n\n"@ + conflict_lines(conflicts) + "请解决上述冲突后重新运行 npt install。"@
}

/// The message that tells of conflicts, if there are any.
pub fn conflict_report(conflicts: &Vec<Conflict>) -> (report: Option<String>)
    ensures
        match report {
            Some(text) => conflicts@.len() > 0 && text@ == conflict_text(views(conflicts@)),
            None => conflicts@.len() == 0,
        },
{
    if conflicts.len() == 0 {
        return None;
    }
    let ghost all = views(conflicts@);
    let mut text = String::from_str("发现依赖冲突，无法继续安装：\n\n");
    let ghost head = text@;
    let mut i: usize = 0;
    assert(text@ =~= head + conflict_lines(all.take(0)));
    while i < conflicts.len()
        invariant
            all == views(conflicts@),
            i <= all.len(),
            text@ == head + conflict_lines(all.take(i as int)),
        decreases all.len() - i,
    {
        text.append(conflicts[i].to_string().as_str());
        text.append("\n");
        proof {
            let now = all.take(i + 1);
            assert(now.drop_last() =~= all.take(i as int));
            assert(now.last() == conflicts@[i as int]@);
            assert(text@ =~= head + conflict_lines(now));
        }
        i = i + 1;
    }
    assert(all.take(i as int) =~= all);
    text.append("请解决上述冲突后重新运行 npt install。");
    Some(text)
}

/// What a package's content is known by: the hash of its directory, or its
/// commit.
pub open spec fn content_sha(source: ResolvedSourceView, dir_hash: Text) -> Text {
    match source {
        ResolvedSourceView::Path { .. } => dir_hash,
        ResolvedSourceView::Git { rev, .. } => rev,
    }
}

/// The version of the first package of that name, or `otherwise`.
pub open spec fn version_of(nodes: Seq<ResolvedNodeView>, name: Text, otherwise: Text) -> Text {
    let p = position(node_names(nodes), name);
    if p >= 0 {
        nodes[p].version
    } else {
        otherwise
    }
}

/// A locked package with the versions that its dependencies are resolved to.
pub open spec fn with_versions(nodes: Seq<ResolvedNodeView>, p: LockedPackageView) -> LockedPackageView {
    LockedPackageView {
        dependencies: Seq::new(
            p.dependencies.len(),
            |i: int|
                LockedDepView {
                    name: p.dependencies[i].name,
                    version: version_of(nodes, p.dependencies[i].name, p.dependencies[i].version),
                },
        ),
        ..p
    }
}

/// The packages as the lockfile pins them, one for one.
pub open spec fn locked_packages(nodes: Seq<ResolvedNodeView>, dir_hashes: Seq<Text>) -> Seq<LockedPackageView> {
    Seq::new(
        nodes.len(),
        |i: int| with_versions(nodes, locked_node(nodes[i], content_sha(nodes[i].source, dir_hashes[i]))),
    )
}

/// The lockfile for resolved packages.
pub open spec fn lockfile_of(nodes: Seq<ResolvedNodeView>, dir_hashes: Seq<Text>, manifest_sha: Text) -> LockfileView {
    LockfileView {
        lock_version: LOCK_VERSION,
        manifest_sha256: manifest_sha,
        packages: packages_sorted(locked_packages(nodes, dir_hashes)),
    }
}

/// The version of the first package of that name.
fn find_version(nodes: &Vec<ResolvedNode>, name: &str) -> (found: Option<String>)
    ensures
        match found {
            Some(v) => {
                let p = position(node_names(views(nodes@)), name@);
                p >= 0 && v@ == views(nodes@)[p].version
            },
            None => position(node_names(views(nodes@)), name@) < 0,
        },
{
    let ghost names = node_names(views(nodes@));
    let mut i: usize = 0;
    proof {
        lemma_position(names, name@);
    }
    while i < nodes.len()
        invariant
            names == node_names(views(nodes@)),
            i <= nodes@.len(),
            forall|k: int| 0 <= k < i ==> names[k] != name@,
        decreases nodes.len() - i,
    {
        assert(names[i as int] == nodes@[i as int].name@);
        if same_text(nodes[i].name.as_str(), name) {
            proof {
                lemma_position(names, name@);
            }
            return Some(nodes[i].version.clone());
        }
        i = i + 1;
    }
    None
}

/// A locked package with the versions that its dependencies are resolved to.
fn fill_versions(nodes: &Vec<ResolvedNode>, package: LockedPackage) -> (filled: LockedPackage)
    ensures
        filled@ == with_versions(views(nodes@), package@),
{
    let mut dependencies: Vec<LockedDep> = Vec::new();
    let ghost wanted = with_versions(views(nodes@), package@).dependencies;
    let mut i: usize = 0;
    while i < package.dependencies.len()
        invariant
            i <= package.dependencies@.len(),
            wanted == with_versions(views(nodes@), package@).dependencies,
            dependencies@.len() == i,
            forall|k: int| 0 <= k < i ==> (#[trigger] dependencies@[k])@ == wanted[k],
        decreases package.dependencies.len() - i,
    {
        let dep = &package.dependencies[i];
        assert(package@.dependencies[i as int] == dep@);
        let version = match find_version(nodes, dep.name.as_str()) {
            Some(v) => v,
            None => dep.version.clone(),
        };
        dependencies.push(LockedDep { name: dep.name.clone(), version });
        i = i + 1;
    }
    assert(views(dependencies@) =~= wanted);
    LockedPackage {
        name: package.name,
        version: package.version,
        source: package.source,
        content_sha256: package.content_sha256,
        dependencies,
    }
}

/// Makes the lockfile for resolved packages: `dir_hashes` holds, for each
/// package from a path, the hash of its directory.
pub fn make_lockfile(nodes: &Vec<ResolvedNode>, dir_hashes: &Vec<String>, manifest_sha: &str) -> (lock: Lockfile)
    requires
        dir_hashes@.len() == nodes@.len(),
    ensures
        lock@ == lockfile_of(views(nodes@), views(dir_hashes@), manifest_sha@),
{
    let ghost wanted = locked_packages(views(nodes@), views(dir_hashes@));
    let mut packages: Vec<LockedPackage> = Vec::new();
    let mut i: usize = 0;
    while i < nodes.len()
        invariant
            dir_hashes@.len() == nodes@.len(),
            i <= nodes@.len(),
            wanted == locked_packages(views(nodes@), views(dir_hashes@)),
            packages@.len() == i,
            forall|k: int| 0 <= k < i ==> (#[trigger] packages@[k])@ == wanted[k],
        decreases nodes.len() - i,
    {
        assert(views(nodes@)[i as int] == nodes@[i as int]@);
        assert(views(dir_hashes@)[i as int] == dir_hashes@[i as int]@);
        let content = match &nodes[i].source {
            ResolvedSource::Path { .. } => dir_hashes[i].clone(),
            ResolvedSource::Git { rev, .. } => rev.clone(),
        };
        packages.push(fill_versions(nodes, node_to_locked_package(&nodes[i], content)));
        i = i + 1;
    }
    assert(views(packages@) =~= wanted);
    Lockfile {
        lock_version: LOCK_VERSION,
        manifest_sha256: String::from_str(manifest_sha),
        packages: sort_packages(packages),
    }
}

/// The hashes of the directories of resolved packages, where a directory has
/// the hash that `dir_hash` gives for its path.
pub open spec fn node_hashes(nodes: Seq<ResolvedNodeView>, dir_hash: spec_fn(Text) -> Text) -> Seq<Text> {
    Seq::new(
        nodes.len(),
        |i: int|
            match nodes[i].source {
                ResolvedSourceView::Path { abs_path } => dir_hash(abs_path),
                ResolvedSourceView::Git { .. } => Seq::empty(),
            },
    )
}

/// The hashes of the directories of locked packages, where a directory has
/// the hash that `dir_hash` gives for its path.
pub open spec fn locked_hashes(packages: Seq<LockedPackageView>, dir_hash: spec_fn(Text) -> Text) -> Seq<
    Option<Text>,
> {
    Seq::new(
        packages.len(),
        |i: int|
            match packages[i].source {
                LockedSourceView::Path { path } => Some(dir_hash(path)),
                _ => None,
            },
    )
}

/// A lockfile just made is kept by the next installation, frozen or not, as
/// long as the manifest and the directories of its packages are the same.
pub proof fn law_new_lock_is_kept(
    nodes: Seq<ResolvedNodeView>,
    dir_hash: spec_fn(Text) -> Text,
    manifest_sha: Text,
    frozen: bool,
)
    requires
        manifest_sha.len() > 0,
        forall|i: int| 0 <= i < nodes.len() ==> (#[trigger] nodes[i]).name.len() > 0 && nodes[i].version.len() > 0,
        forall|i: int|
            0 <= i < nodes.len() ==> content_sha((#[trigger] nodes[i]).source, node_hashes(nodes, dir_hash)[i]).len() > 0,
    ensures
        ({
            let lock = lockfile_of(nodes, node_hashes(nodes, dir_hash), manifest_sha);
            lock_plan(frozen, Some(lock), locked_hashes(lock.packages, dir_hash), manifest_sha) == Ok::<
                LockPlan,
                InstallErrorView,
            >(LockPlan::Keep)
        }),
{
    let hashes = node_hashes(nodes, dir_hash);
    let packages = locked_packages(nodes, hashes);
    let raw = LockfileView { lock_version: LOCK_VERSION, manifest_sha256: manifest_sha, packages };
    let lock = lockfile_of(nodes, hashes, manifest_sha);
    assert forall|i: int| 0 <= i < packages.len() implies (#[trigger] packages[i]).fault() is None by {
        assert(nodes[i].name.len() > 0);
    }
    lemma_packages_fault(packages);
    law_written_lock(raw, manifest_sha);
    assert(raw.sorted() == lock);
    let now = locked_hashes(lock.packages, dir_hash);
    assert forall|j: int| 0 <= j < lock.packages.len() implies source_fits(
        #[trigger] lock.packages[j],
        hash_at(now, j),
    ) by {
        assert(lock.packages.contains(lock.packages[j]));
        assert(packages.contains(lock.packages[j]));
        let i = choose|i: int| 0 <= i < packages.len() && packages[i] == lock.packages[j];
        assert(packages[i].content_sha256 == content_sha(nodes[i].source, hashes[i]));
    }
}

/// A lockfile is not kept once the manifest has another hash.
pub proof fn law_changed_manifest_is_noticed(
    lock: LockfileView,
    frozen: bool,
    dir_hashes: Seq<Option<Text>>,
    manifest_sha: Text,
)
    requires
        lock.manifest_sha256 != manifest_sha,
    ensures
        lock_plan(frozen, Some(lock), dir_hashes, manifest_sha) != Ok::<LockPlan, InstallErrorView>(LockPlan::Keep),
{
}

/// Unless an installation is frozen, a lockfile is not kept once the directory
/// of one of its packages has another hash.
pub proof fn law_changed_source_is_noticed(
    lock: LockfileView,
    dir_hashes: Seq<Option<Text>>,
    manifest_sha: Text,
    i: int,
)
    requires
        0 <= i < lock.packages.len(),
        lock.packages[i].source is Path,
        hash_at(dir_hashes, i) matches Some(hash) && hash != lock.packages[i].content_sha256,
    ensures
        lock_plan(false, Some(lock), dir_hashes, manifest_sha) != Ok::<LockPlan, InstallErrorView>(LockPlan::Keep),
{
    assert(!source_fits(lock.packages[i], hash_at(dir_hashes, i)));
}

/// In the lockfile for all that is asked for, each dependency of a package
/// is listed with the version of the package that it is resolved to, which is
/// in the lockfile too.
pub proof fn law_dependencies_are_locked(
    roots: Seq<Text>,
    nodes: Seq<ResolvedNodeView>,
    dir_hashes: Seq<Text>,
    i: int,
    k: int,
)
    requires
        is_complete(roots, nodes),
        dir_hashes.len() == nodes.len(),
        0 <= i < nodes.len(),
        0 <= k < nodes[i].direct_deps.len(),
    ensures
        ({
            let packages = locked_packages(nodes, dir_hashes);
            let dep = packages[i].dependencies[k];
            &&& dep.name == nodes[i].direct_deps[k].0
            &&& exists|q: int|
                0 <= q < packages.len() && (#[trigger] packages[q]).name == dep.name && packages[q].version == dep.version
        }),
{
    let packages = locked_packages(nodes, dir_hashes);
    let name = nodes[i].direct_deps[k].0;
    assert(dep_names(nodes[i].direct_deps)[k] == name);
    assert(node_asks(nodes[i], name));
    assert(is_asked_for(roots, nodes, name));
    let q = position(node_names(nodes), name);
    lemma_position(node_names(nodes), name);
    assert(node_names(nodes)[q] == name);
    assert(packages[q].name == name);
}

/// The lockfile does not depend on the order in which packages were found:
/// where the same packages are found, and their directories have the same
/// hashes, the same lockfile is made of them.
pub proof fn law_lockfile_is_reproducible(
    nodes: Seq<ResolvedNodeView>,
    others: Seq<ResolvedNodeView>,
    a: Seq<ResolvedNodeView>,
    b: Seq<ResolvedNodeView>,
    dir_hash: spec_fn(Text) -> Text,
    manifest_sha: Text,
)
    requires
        node_names(nodes).no_duplicates(),
        nodes.len() == others.len(),
        forall|x: ResolvedNodeView| #[trigger] nodes.contains(x) <==> others.contains(x),
        is_sorted_form(nodes, a),
        is_sorted_form(others, b),
    ensures
        lockfile_of(a, node_hashes(a, dir_hash), manifest_sha) == lockfile_of(
            b,
            node_hashes(b, dir_hash),
            manifest_sha,
        ),
{
    law_sorted_form_is_unique(nodes, others, a, b);
}

/// A lockfile is kept just where there is one, it is in order, of format
/// version 2 and made for the manifest, and, unless the installation is frozen,
/// every package from a path whose directory can be read has the hash that is
/// locked.
pub proof fn law_when_kept(
    frozen: bool,
    lock: Option<LockfileView>,
    dir_hashes: Seq<Option<Text>>,
    manifest_sha: Text,
)
    ensures
        lock_plan(frozen, lock, dir_hashes, manifest_sha) == Ok::<LockPlan, InstallErrorView>(LockPlan::Keep) <==> (
        lock matches Some(l) && {
            &&& l.fault() is None
            &&& l.lock_version == 2
            &&& l.manifest_sha256 == manifest_sha
            &&& frozen || forall|i: int|
                #![trigger l.packages[i]]
                0 <= i < l.packages.len() && i < dir_hashes.len() ==> (l.packages[i].source is Path ==> (
                dir_hashes[i] matches Some(hash) ==> hash == l.packages[i].content_sha256))
        }),
{
    if let Some(l) = lock {
        if sources_fit(l.packages, dir_hashes) {
            assert forall|i: int|
                #![trigger l.packages[i]]
                0 <= i < l.packages.len() && i < dir_hashes.len() && l.packages[i].source is Path
                    && dir_hashes[i] is Some implies dir_hashes[i]->0 == l.packages[i].content_sha256 by {
                assert(source_fits(l.packages[i], hash_at(dir_hashes, i)));
            }
        } else {
            let i = choose|i: int|
                0 <= i < l.packages.len() && !source_fits(#[trigger] l.packages[i], hash_at(dir_hashes, i));
            assert(l.packages[i].source is Path && i < dir_hashes.len());
            assert(dir_hashes[i] is Some && dir_hashes[i]->0 != l.packages[i].content_sha256);
        }
    }
}

/// What happens where the lockfile is not kept: a faulty one is refused with
/// its fault; a frozen installation is refused, as stale where there is a
/// lockfile and as lacking one where there is none; any other resolves, anew
/// where there is a lockfile.
pub proof fn law_when_not_kept(
    frozen: bool,
    lock: Option<LockfileView>,
    dir_hashes: Seq<Option<Text>>,
    manifest_sha: Text,
)
    requires
        lock_plan(frozen, lock, dir_hashes, manifest_sha) != Ok::<LockPlan, InstallErrorView>(LockPlan::Keep),
    ensures
        lock matches Some(l) ==> (l.fault() matches Some(fault) ==> lock_plan(frozen, lock, dir_hashes, manifest_sha)
            == Err::<LockPlan, InstallErrorView>(InstallErrorView::Lock(fault))),
        lock matches Some(l) ==> (l.fault() is None && frozen ==> lock_plan(frozen, lock, dir_hashes, manifest_sha)
            == Err::<LockPlan, InstallErrorView>(InstallErrorView::FrozenStale)),
        lock matches Some(l) ==> (l.fault() is None && !frozen ==> lock_plan(frozen, lock, dir_hashes, manifest_sha)
            == Ok::<LockPlan, InstallErrorView>(LockPlan::Refresh)),
        lock is None && frozen ==> lock_plan(frozen, lock, dir_hashes, manifest_sha) == Err::<
            LockPlan,
            InstallErrorView,
        >(InstallErrorView::FrozenMissing),
        lock is None && !frozen ==> lock_plan(frozen, lock, dir_hashes, manifest_sha) == Ok::<
            LockPlan,
            InstallErrorView,
        >(LockPlan::Create),
{
}

/// Directories are read just where an installation is not frozen and there is
/// a lockfile in order, of format version 2 and made for the manifest.
pub proof fn law_when_sources_are_read(frozen: bool, lock: Option<LockfileView>, manifest_sha: Text)
    ensures
        rests_on_sources(frozen, lock, manifest_sha) <==> !frozen && (lock matches Some(l) && l.fault() is None
            && l.lock_version == 2 && l.manifest_sha256 == manifest_sha),
{
}

/// Each package is locked in its turn: under its name, at its version, to the
/// directory or the repository and commit that it was resolved to, with the
/// directory's hash or the commit as its content.
pub proof fn law_packages_are_locked(nodes: Seq<ResolvedNodeView>, dir_hashes: Seq<Text>, i: int)
    requires
        dir_hashes.len() == nodes.len(),
        0 <= i < nodes.len(),
    ensures
        locked_packages(nodes, dir_hashes).len() == nodes.len(),
        ({
            let locked = locked_packages(nodes, dir_hashes)[i];
            &&& locked.name == nodes[i].name
            &&& locked.version == nodes[i].version
            &&& nodes[i].source matches ResolvedSourceView::Path { abs_path } ==> {
                &&& locked.source == (LockedSourceView::Path { path: abs_path })
                &&& locked.content_sha256 == dir_hashes[i]
            }
            &&& nodes[i].source matches ResolvedSourceView::Git { url, rev } ==> {
                &&& locked.source == (LockedSourceView::Git { url, rev })
                &&& locked.content_sha256 == rev
            }
        }),
{
}

/// A locked package lists its dependencies by name, all of them, in order:
/// each with the version of the package of that name, or with none where there
/// is no such package.
pub proof fn law_locked_dependencies(nodes: Seq<ResolvedNodeView>, dir_hashes: Seq<Text>, i: int, k: int, q: int)
    requires
        node_names(nodes).no_duplicates(),
        dir_hashes.len() == nodes.len(),
        0 <= i < nodes.len(),
        0 <= k < nodes[i].direct_deps.len(),
    ensures
        ({
            let dependencies = locked_packages(nodes, dir_hashes)[i].dependencies;
            let name = nodes[i].direct_deps[k].0;
            &&& dependencies.len() == nodes[i].direct_deps.len()
            &&& dependencies[k].name == name
            &&& 0 <= q < nodes.len() && nodes[q].name == name ==> dependencies[k].version == nodes[q].version
            &&& (forall|p: int| 0 <= p < nodes.len() ==> (#[trigger] nodes[p]).name != name)
                ==> dependencies[k].version.len() == 0
        }),
{
    let names = node_names(nodes);
    let name = nodes[i].direct_deps[k].0;
    lemma_position(names, name);
    if 0 <= q < nodes.len() && nodes[q].name == name {
        assert(names[q] == name);
        assert(names[position(names, name)] == name);
    }
    if forall|p: int| 0 <= p < nodes.len() ==> (#[trigger] nodes[p]).name != name {
        if position(names, name) >= 0 {
            assert(names[position(names, name)] == nodes[position(names, name)].name);
        }
    }
}

/// A lockfile that is made is of format version 2, has the manifest's hash, and
/// holds the resolved packages as they are locked: all of them and no others,
/// by name.
pub proof fn law_made_lockfile(nodes: Seq<ResolvedNodeView>, dir_hashes: Seq<Text>, manifest_sha: Text)
    requires
        dir_hashes.len() == nodes.len(),
    ensures
        ({
            let lock = lockfile_of(nodes, dir_hashes, manifest_sha);
            &&& lock.lock_version == 2
            &&& lock.manifest_sha256 == manifest_sha
            &&& lock.packages.len() == nodes.len()
            &&& forall|p: LockedPackageView| #[trigger]
                lock.packages.contains(p) <==> locked_packages(nodes, dir_hashes).contains(p)
            &&& forall|i: int, j: int|
                0 <= i < j < lock.packages.len() ==> !text_lt(
                    (#[trigger] lock.packages[j]).name,
                    (#[trigger] lock.packages[i]).name,
                )
        }),
{
    let packages = locked_packages(nodes, dir_hashes);
    let raw = LockfileView { lock_version: LOCK_VERSION, manifest_sha256: manifest_sha, packages };
    law_written_lock(raw, manifest_sha);
    law_written_head(raw);
    let lock = lockfile_of(nodes, dir_hashes, manifest_sha);
    assert(raw.sorted() == lock);
    assert forall|p: LockedPackageView| #[trigger] lock.packages.contains(p) <==> packages.contains(p) by {
        assert(raw.sorted().packages.contains(p) <==> raw.packages.contains(p));
    }
}

/// The message on conflicts tells of each in its turn: what is said of some
/// conflicts and then others is what is said of the first and then of the
/// others, and of one conflict its own text and an end of line.
pub proof fn law_conflicts_are_told(a: Seq<ConflictView>, b: Seq<ConflictView>, c: ConflictView)
    ensures
        conflict_lines(a + b) == conflict_lines(a) + conflict_lines(b),
        conflict_lines(seq![c]) == c.text() + "\n"@,
        conflict_text(a) == "发现依赖冲突，无法继续安装：\n\n"@ + conflict_lines(a)
            + "请解决上述冲突后重新运行 npt install。"@,
    decreases b.len(),
{
    assert(seq![c].drop_last() =~= Seq::<ConflictView>::empty());
    assert(conflict_lines(seq![c].drop_last()) =~= Seq::<char>::empty());
    assert(conflict_lines(seq![c]) =~= c.text() + "\n"@);
    if b.len() == 0 {
        assert(a + b =~= a);
        assert(conflict_lines(a) + conflict_lines(b) =~= conflict_lines(a));
    } else {
        law_conflicts_are_told(a, b.drop_last(), c);
        assert((a + b).drop_last() =~= a + b.drop_last());
        assert(conflict_lines(a + b) =~= conflict_lines(a) + conflict_lines(b));
    }
}

/// A lockfile is read just where there is one and dependencies are not to be
/// resolved by force.
pub proof fn law_reads_lock(force: bool, exists: bool, reads: bool)
    requires
        call_ensures(reads_lock, (force, exists), reads),
    ensures
        force ==> !reads,
        !exists ==> !reads,
        !force && exists ==> reads,
{
}

/// A package from a path whose directory has changed is resolved anew, and a
/// frozen installation goes by the lockfile or is refused.
pub proof fn law_plan_lock(
    frozen: bool,
    lock: &Lockfile,
    dir_hashes: &Vec<Option<String>>,
    manifest_sha: &str,
    plan: Result<LockPlan, InstallError>,
    i: int,
)
    requires
        call_ensures(plan_lock, (frozen, Some(lock), dir_hashes, manifest_sha), plan),
        lock@.fault() is None,
    ensures
        lock.manifest_sha256@ != manifest_sha@ || lock.lock_version != 2 ==> if frozen {
            plan matches Err(InstallError::FrozenStale)
        } else {
            plan == Ok::<LockPlan, InstallError>(LockPlan::Refresh)
        },
        lock.manifest_sha256@ == manifest_sha@ && lock.lock_version == 2 && frozen ==> plan == Ok::<
            LockPlan,
            InstallError,
        >(LockPlan::Keep),
        lock.manifest_sha256@ == manifest_sha@ && lock.lock_version == 2 && !frozen ==> (plan == Ok::<
            LockPlan,
            InstallError,
        >(LockPlan::Keep) || plan == Ok::<LockPlan, InstallError>(LockPlan::Refresh)),
        !frozen && 0 <= i < lock.packages@.len() && i < dir_hashes@.len() ==> (dir_hashes@[i] matches Some(hash)
            ==> lock.packages@[i].source is Path && hash@ != lock.packages@[i].content_sha256@ ==> plan == Ok::<
            LockPlan,
            InstallError,
        >(LockPlan::Refresh)),
{
    let hashes = hash_views(dir_hashes@);
    law_when_kept(frozen, Some(lock@), hashes, manifest_sha@);
    if !frozen && 0 <= i < lock.packages@.len() && i < dir_hashes@.len() && dir_hashes@[i] is Some
        && lock.packages@[i].source is Path && dir_hashes@[i]->0@ != lock.packages@[i].content_sha256@ {
        assert(lock@.packages[i] == lock.packages@[i]@);
        assert(hashes[i] == Some(dir_hashes@[i]->0@));
        assert(!source_fits(lock@.packages[i], hash_at(hashes, i)));
    }
}

/// The lockfile that is made pins every resolved package: to the directory, with
/// the directory's hash, or to the repository and the commit.
pub proof fn law_make_lockfile(
    nodes: &Vec<ResolvedNode>,
    dir_hashes: &Vec<String>,
    manifest_sha: &str,
    lock: Lockfile,
    i: int,
)
    requires
        dir_hashes@.len() == nodes@.len(),
        call_ensures(make_lockfile, (nodes, dir_hashes, manifest_sha), lock),
        0 <= i < nodes@.len(),
    ensures
        lock.lock_version == 2,
        lock.manifest_sha256@ == manifest_sha@,
        lock.packages@.len() == nodes@.len(),
        exists|k: int|
            #![trigger lock@.packages[k]]
            {
                let p = lock@.packages[k];
                &&& 0 <= k < lock@.packages.len()
                &&& p.name == nodes@[i].name@
                &&& p.version == nodes@[i].version@
                &&& nodes@[i].source matches ResolvedSource::Path { abs_path } ==> p.source == (
                LockedSourceView::Path { path: abs_path@ }) && p.content_sha256 == dir_hashes@[i]@
                &&& nodes@[i].source matches ResolvedSource::Git { url, rev } ==> p.source == (
                LockedSourceView::Git { url: url@, rev: rev@ }) && p.content_sha256 == rev@
            },
{
    let all = views(nodes@);
    let hashes = views(dir_hashes@);
    let packages = locked_packages(all, hashes);
    law_made_lockfile(all, hashes, manifest_sha@);
    law_packages_are_locked(all, hashes, i);
    assert(all[i] == nodes@[i]@ && hashes[i] == dir_hashes@[i]@);
    assert(packages.contains(packages[i]));
    assert(lock@.packages.contains(packages[i]));
    let k = choose|k: int| 0 <= k < lock@.packages.len() && lock@.packages[k] == packages[i];
    assert(lock@.packages[k].name == nodes@[i].name@);
    assert(lock@.packages.len() == lock.packages@.len());
}

} // verus!
