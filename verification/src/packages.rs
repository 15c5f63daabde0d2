//! Where packages are installed and how modules are mapped to them.
use vstd::prelude::*;
use vstd::string::*;
use vstd::utf8::*;

use crate::install::{InstallError, InstallErrorView};
use crate::lockfile::{LockedPackage, LockedPackageView, LockedSource, LockedSourceView, Lockfile};
use crate::paths::{bare_path, modules_dir, modules_dir_view, FsPath, FsPathView};
use crate::resolver::{repo_dir, repo_dir_view};
use crate::text::{
    byte_len, can_cut, chars_of, cut, cut_text, is_cuttable, is_plain, law_ascii_cut, lemma_tells, lemma_views_push,
    sanitize, sanitized, string_of, tells, views, Text,
};

verus! {

/// How many bytes of a hash tell installed packages apart.
pub const SHORT_HASH: usize = 8;

/// The start of a hash.
pub fn short_hash(hash: &str) -> (short: String)
    requires
        can_cut(hash@, SHORT_HASH as nat),
    ensures
        short@ == cut(hash@, SHORT_HASH as nat),
{
    cut_text(hash, SHORT_HASH)
}

/// The start of a sanitized revision: as many characters as the revision has
/// bytes, but no more than a short hash has.
pub open spec fn short_rev(rev: Text) -> Text {
    sanitized(rev).take(short_rev_len(rev))
}

pub open spec fn short_rev_len(rev: Text) -> int {
    if byte_len(rev) < SHORT_HASH {
        byte_len(rev) as int
    } else {
        SHORT_HASH as int
    }
}

/// The id of a package from a path.
pub open spec fn path_pkg_id(content_sha256: Text) -> Text {
    "path-"@ + cut(content_sha256, SHORT_HASH as nat)
}

/// The id of a package from a Git repository.
pub open spec fn git_pkg_id(rev: Text) -> Text {
    "git-"@ + short_rev(rev)
}

/// The id of a package, by which it is installed: none for a registry.
pub open spec fn pkg_id_view(package: LockedPackageView) -> Option<Text> {
    match package.source {
        LockedSourceView::Path { .. } => Some(path_pkg_id(package.content_sha256)),
        LockedSourceView::Git { rev, .. } => Some(git_pkg_id(rev)),
        LockedSourceView::Registry { .. } => None,
    }
}

/// Whether the hash or revision of a package can be cut to form its id.
pub open spec fn can_be_named(package: LockedPackageView) -> bool {
    match package.source {
        LockedSourceView::Path { .. } => can_cut(package.content_sha256, SHORT_HASH as nat),
        LockedSourceView::Git { rev, .. } => short_rev_len(rev) <= rev.len(),
        LockedSourceView::Registry { .. } => true,
    }
}

/// Whether the hash or revision of a package can be cut to form its id.
pub fn is_namable(package: &LockedPackage) -> (is: bool)
    ensures
        is == can_be_named(package@),
{
    match &package.source {
        LockedSource::Path { .. } => is_cuttable(package.content_sha256.as_str(), SHORT_HASH),
        LockedSource::Git { rev, .. } => {
            let bytes: usize = rev.as_str().as_bytes().len();
            let chars: usize = chars_of(rev.as_str()).len();
            if bytes < SHORT_HASH {
                bytes <= chars
            } else {
                SHORT_HASH <= chars
            }
        },
        LockedSource::Registry { .. } => true,
    }
}

fn short_rev_of(rev: &str) -> (short: String)
    requires
        short_rev_len(rev@) <= rev@.len(),
    ensures
        short@ == short_rev(rev@),
{
    let bytes: usize = rev.as_bytes().len();
    let n: usize = if bytes < SHORT_HASH {
        bytes
    } else {
        SHORT_HASH
    };
    let chars = chars_of(sanitize(rev).as_str());
    assert(chars@.subrange(0, n as int) =~= short_rev(rev@));
    string_of(&chars, 0, n)
}

/// The id of a package, by which it is installed: none for a registry.
pub fn pkg_id(package: &LockedPackage) -> (id: Option<String>)
    requires
        can_be_named(package@),
    ensures
        match id {
            Some(text) => pkg_id_view(package@) == Some(text@),
            None => pkg_id_view(package@) is None,
        },
{
    match &package.source {
        LockedSource::Path { .. } => Some(
            String::from_str("path-").concat(short_hash(package.content_sha256.as_str()).as_str()),
        ),
        LockedSource::Git { rev, .. } => Some(String::from_str("git-").concat(short_rev_of(rev.as_str()).as_str())),
        LockedSource::Registry { .. } => None,
    }
}

/// A package is installed under the first eight characters of its hash or
/// commit, where those are the ASCII letters and digits they should be.
pub proof fn law_pkg_id(package: LockedPackageView)
    ensures
        package.source is Path && is_ascii_chars(package.content_sha256) && package.content_sha256.len() >= SHORT_HASH
            ==> can_be_named(package) && pkg_id_view(package) == Some(
            "path-"@ + package.content_sha256.take(SHORT_HASH as int),
        ),
        package.source matches LockedSourceView::Git { rev, .. } ==> rev.len() >= SHORT_HASH && (forall|i: int|
            0 <= i < rev.len() ==> is_plain(#[trigger] rev[i])) ==> can_be_named(package) && pkg_id_view(package)
            == Some("git-"@ + rev.take(SHORT_HASH as int)),
{
    match package.source {
        LockedSourceView::Path { .. } => {
            if is_ascii_chars(package.content_sha256) {
                law_ascii_cut(package.content_sha256, SHORT_HASH as nat);
            }
        },
        LockedSourceView::Git { rev, .. } => {
            if rev.len() >= SHORT_HASH && (forall|i: int| 0 <= i < rev.len() ==> is_plain(#[trigger] rev[i])) {
                assert(is_ascii_chars(rev)) by {
                    assert forall|i: int| 0 <= i < rev.len() implies '\0' <= #[trigger] rev[i] <= '\u{7f}' by {
                        assert(is_plain(rev[i]));
                    }
                }
                is_ascii_chars_encode_utf8(rev);
                assert(sanitized(rev) =~= rev);
            }
        },
        LockedSourceView::Registry { .. } => {},
    }
}

/// Packages from paths are installed in the same place just where their names
/// and the starts of their hashes agree.
pub proof fn law_install_place(pkgs_root: FsPathView, a: LockedPackageView, b: LockedPackageView)
    requires
        a.source is Path,
        b.source is Path,
    ensures
        installed_dir_view(pkgs_root, a.name, pkg_id_view(a)->0) == installed_dir_view(
            pkgs_root,
            b.name,
            pkg_id_view(b)->0,
        ) <==> a.name == b.name && cut(a.content_sha256, SHORT_HASH as nat) == cut(b.content_sha256, SHORT_HASH as nat),
{
    let x = cut(a.content_sha256, SHORT_HASH as nat);
    let y = cut(b.content_sha256, SHORT_HASH as nat);
    let p = installed_dir_view(pkgs_root, a.name, "path-"@ + x);
    let q = installed_dir_view(pkgs_root, b.name, "path-"@ + y);
    if p == q {
        let n = pkgs_root.parts.len() as int;
        assert(p.parts[n] == q.parts[n]);
        assert(p.parts[n + 1] == q.parts[n + 1]);
        let k = "path-"@.len() as int;
        assert(x =~= ("path-"@ + x).skip(k));
        assert(y =~= ("path-"@ + y).skip(k));
    }
}

/// Where a package is installed: `<name>/<id>` among the packages.
pub open spec fn installed_dir_view(pkgs_root: FsPathView, name: Text, id: Text) -> FsPathView {
    pkgs_root.join(name).join(id)
}

/// Where a package is installed: `<name>/<id>` among the packages.
pub fn installed_dir(pkgs_root: &FsPath, name: &str, id: &str) -> (dir: FsPath)
    ensures
        dir@ == installed_dir_view(pkgs_root@, name@, id@),
{
    pkgs_root.join(name).join(id)
}

/// What an installed Git package is marked with.
pub open spec fn commit_mark(rev: Text) -> Text {
    "git-commit:"@ + rev
}

/// How a package is installed.
#[derive(Debug)]
pub struct PackagePlan {
    pub id: String,
    /// The directory that is copied.
    pub src: FsPath,
    /// The directory that it is copied to.
    pub dst: FsPath,
    /// By what the installed package is marked as to its content.
    pub content_sha256: String,
}

#[verifier::ext_equal]
pub struct PackagePlanView {
    pub id: Text,
    pub src: FsPathView,
    pub dst: FsPathView,
    pub content_sha256: Text,
}

impl View for PackagePlan {
    type V = PackagePlanView;

    open spec fn view(&self) -> PackagePlanView {
        PackagePlanView {
            id: self.id@,
            src: self.src@,
            dst: self.dst@,
            content_sha256: self.content_sha256@,
        }
    }
}

/// How a package is installed: from its directory, or from the cached
/// repository at its commit.
pub open spec fn package_plan(package: LockedPackageView, root: FsPathView, pkgs_root: FsPathView) -> Option<
    PackagePlanView,
> {
    match package.source {
        LockedSourceView::Path { path } => {
            let id = path_pkg_id(package.content_sha256);
            Some(
                PackagePlanView {
                    id,
                    src: bare_path(path),
                    dst: installed_dir_view(pkgs_root, package.name, id),
                    content_sha256: package.content_sha256,
                },
            )
        },
        LockedSourceView::Git { url, rev } => {
            let id = git_pkg_id(rev);
            Some(
                PackagePlanView {
                    id,
                    src: repo_dir_view(root, url, rev),
                    dst: installed_dir_view(pkgs_root, package.name, id),
                    content_sha256: commit_mark(rev),
                },
            )
        },
        LockedSourceView::Registry { .. } => None,
    }
}

/// Plans the installation of a package. One from a registry is refused.
pub fn materialize_pkg(package: &LockedPackage, root: &FsPath, pkgs_root: &FsPath) -> (plan: Result<
    PackagePlan,
    InstallError,
>)
    requires
        can_be_named(package@),
    ensures
        match plan {
            Ok(p) => package_plan(package@, root@, pkgs_root@) == Some(p@),
            Err(e) => package@.source is Registry && e@ == InstallErrorView::Registry,
        },
{
    let id = match pkg_id(package) {
        Some(id) => id,
        None => {
            return Err(InstallError::Registry);
        },
    };
    let dst = installed_dir(pkgs_root, package.name.as_str(), id.as_str());
    match &package.source {
        LockedSource::Path { path } => Ok(
            PackagePlan {
                id,
                src: FsPath::new(path.as_str()),
                dst,
                content_sha256: package.content_sha256.clone(),
            },
        ),
        LockedSource::Git { url, rev } => Ok(
            PackagePlan {
                id,
                src: repo_dir(root, url.as_str(), rev.as_str()),
                dst,
                content_sha256: String::from_str("git-commit:").concat(rev.as_str()),
            },
        ),
        LockedSource::Registry { .. } => Err(InstallError::Registry),
    }
}

/// What is still to be done to install a package.
#[derive(Debug, Clone, Copy, PartialEq, Eq, Structural)]
pub struct PackageSteps {
    /// The repository is to be cloned into the cache.
    pub clone: bool,
    /// The package is to be copied to its place.
    pub copy: bool,
}

/// What is still to be done to install a package: a repository that is not
/// cached is cloned, and a package that is not in its place is copied there.
pub fn package_steps(source: &LockedSource, src_exists: bool, dst_exists: bool) -> (steps: PackageSteps)
    ensures
        steps.clone == (source@ is Git && !src_exists),
        steps.copy == !dst_exists,
{
    let clone = match source {
        LockedSource::Git { .. } => !src_exists,
        _ => false,
    };
    PackageSteps { clone, copy: !dst_exists }
}

/// The number of packages that were newly installed.
pub open spec fn new_count(installed: Seq<bool>) -> int
    decreases installed.len(),
{
    if installed.len() == 0 {
        0
    } else {
        new_count(installed.drop_last()) + if installed.last() {
            1int
        } else {
            0int
        }
    }
}

/// The numbers of packages that were newly installed and that were already in
/// their places, from what was done for each.
pub fn tally(installed: &Vec<bool>) -> (counts: (usize, usize))
    ensures
        counts.0 == new_count(installed@),
        counts.0 + counts.1 == installed@.len(),
{
    let mut fresh: usize = 0;
    let mut i: usize = 0;
    assert(installed@.take(0) =~= Seq::empty());
    while i < installed.len()
        invariant
            i <= installed@.len(),
            fresh <= i,
            fresh == new_count(installed@.take(i as int)),
        decreases installed.len() - i,
    {
        assert(installed@.take(i + 1).drop_last() =~= installed@.take(i as int));
        if installed[i] {
            fresh = fresh + 1;
        }
        i = i + 1;
    }
    assert(installed@.take(i as int) =~= installed@);
    (fresh, i - fresh)
}

/// A module directory and the package that it leads to.
#[derive(Debug)]
pub struct ModuleLink {
    pub name: String,
    pub installed: FsPath,
    pub dst: FsPath,
}

#[verifier::ext_equal]
pub struct ModuleLinkView {
    pub name: Text,
    pub installed: FsPathView,
    pub dst: FsPathView,
}

impl View for ModuleLink {
    type V = ModuleLinkView;

    open spec fn view(&self) -> ModuleLinkView {
        ModuleLinkView { name: self.name@, installed: self.installed@, dst: self.dst@ }
    }
}

/// The module directory of a package: none for one from a registry.
pub open spec fn module_link(package: LockedPackageView, root: FsPathView, pkgs_root: FsPathView) -> Option<
    ModuleLinkView,
> {
    match pkg_id_view(package) {
        Some(id) => Some(
            ModuleLinkView {
                name: package.name,
                installed: installed_dir_view(pkgs_root, package.name, id),
                dst: modules_dir_view(root).join(package.name),
            },
        ),
        None => None,
    }
}

/// The module directories of packages, in order.
pub open spec fn module_links(packages: Seq<LockedPackageView>, root: FsPathView, pkgs_root: FsPathView) -> Seq<
    ModuleLinkView,
>
    decreases packages.len(),
{
    if packages.len() == 0 {
        Seq::empty()
    } else {
        let front = module_links(packages.drop_last(), root, pkgs_root);
        match module_link(packages.last(), root, pkgs_root) {
            Some(link) => front.push(link),
            None => front,
        }
    }
}

/// Maps modules to installed packages, as the lockfile lists them.
pub fn generate_modules_mapping(root: &FsPath, pkgs_root: &FsPath, lock: &Lockfile) -> (links: Vec<ModuleLink>)
    requires
        forall|i: int| 0 <= i < lock@.packages.len() ==> can_be_named(#[trigger] lock@.packages[i]),
    ensures
        views(links@) == module_links(lock@.packages, root@, pkgs_root@),
{
    let ghost packages = lock@.packages;
    let modules = modules_dir(root);
    let mut links: Vec<ModuleLink> = Vec::new();
    let mut i: usize = 0;
    assert(views(links@) =~= module_links(packages.take(0), root@, pkgs_root@));
    while i < lock.packages.len()
        invariant
            packages == views(lock.packages@),
            modules@ == modules_dir_view(root@),
            forall|k: int| 0 <= k < packages.len() ==> can_be_named(#[trigger] packages[k]),
            i <= packages.len(),
            views(links@) == module_links(packages.take(i as int), root@, pkgs_root@),
        decreases packages.len() - i,
    {
        assert(packages.take(i + 1).drop_last() =~= packages.take(i as int));
        assert(packages[i as int] == lock.packages@[i as int]@);
        match pkg_id(&lock.packages[i]) {
            Some(id) => {
                let name = &lock.packages[i].name;
                let link = ModuleLink {
                    name: name.clone(),
                    installed: installed_dir(pkgs_root, name.as_str(), id.as_str()),
                    dst: modules.join(name.as_str()),
                };
                proof {
                    lemma_views_push(links@, link);
                }
                links.push(link);
            },
            None => {},
        }
        i = i + 1;
    }
    assert(packages.take(i as int) =~= packages);
    links
}

/// A module leads to the very place where its package is installed.
pub proof fn law_modules_lead_to_packages(package: LockedPackageView, root: FsPathView, pkgs_root: FsPathView)
    ensures
        module_link(package, root, pkgs_root) is Some <==> package_plan(package, root, pkgs_root) is Some,
        module_link(package, root, pkgs_root) matches Some(link) ==> link.installed == package_plan(
            package,
            root,
            pkgs_root,
        )->0.dst,
{
}

/// A package from a path is installed in a new place once the start of its hash
/// has changed, and its module leads there.
pub proof fn law_changed_source_is_installed(
    old_package: LockedPackageView,
    new_package: LockedPackageView,
    root: FsPathView,
    pkgs_root: FsPathView,
)
    requires
        old_package.source is Path,
        new_package.source is Path,
        cut(old_package.content_sha256, SHORT_HASH as nat) != cut(new_package.content_sha256, SHORT_HASH as nat),
    ensures
        package_plan(new_package, root, pkgs_root)->0.dst != package_plan(old_package, root, pkgs_root)->0.dst,
        module_link(new_package, root, pkgs_root)->0.installed == package_plan(new_package, root, pkgs_root)->0.dst,
{
    law_install_place(pkgs_root, old_package, new_package);
}

/// The warning about a module whose package is not installed, and which is
/// therefore not mapped; `shown` is the package's place as it is shown.
pub fn missing_module(link: &ModuleLink, shown: &str, installed: bool) -> (warning: Option<String>)
    ensures
        match warning {
            Some(text) => !installed && text@ == "警告：包 "@ + link@.name + " 的安装目录不存在（"@ + shown@
                + "），跳过模块映射"@,
            None => installed,
        },
{
    if installed {
        None
    } else {
        Some(
            String::from_str("警告：包 ").concat(link.name.as_str()).concat(" 的安装目录不存在（").concat(shown).concat(
                "），跳过模块映射",
            ),
        )
    }
}

/// A package from a Git repository is known by the first characters of its
/// commit, eight of them or as many as the commit has bytes; characters that
/// are not plain show as underscores.
pub proof fn law_git_pkg_id(package: LockedPackageView, url: Text, rev: Text)
    requires
        package.source == (LockedSourceView::Git { url, rev }),
        can_be_named(package),
    ensures
        ({
            let id = pkg_id_view(package)->0;
            let n = if encode_utf8(rev).len() < 8 {
                encode_utf8(rev).len() as int
            } else {
                8int
            };
            &&& pkg_id_view(package) is Some
            &&& id.len() == 4 + n
            &&& id.take(4) == "git-"@
            &&& forall|i: int|
                #![trigger rev[i]]
                0 <= i < n ==> (if 'a' <= rev[i] <= 'z' || 'A' <= rev[i] <= 'Z' || '0' <= rev[i] <= '9' || rev[i] == '-'
                    || rev[i] == '_' {
                    id[4 + i] == rev[i]
                } else {
                    id[4 + i] == '_'
                })
        }),
{
    reveal_strlit("git-");
    assert(pkg_id_view(package)->0.take(4) =~= "git-"@);
}

/// A package from a path is known by the first eight bytes of its hash, or by
/// all of a shorter one; one from a registry has no id.
pub proof fn law_path_pkg_id(package: LockedPackageView)
    ensures
        package.source is Path && is_ascii_chars(package.content_sha256) && package.content_sha256.len() >= 8
            ==> pkg_id_view(package) == Some("path-"@ + package.content_sha256.take(8)),
        package.source is Path && encode_utf8(package.content_sha256).len() < 8 ==> pkg_id_view(package) == Some(
            "path-"@ + package.content_sha256,
        ),
        package.source is Registry ==> pkg_id_view(package) is None,
{
    law_pkg_id(package);
}

/// A package is copied from where it was locked to, its directory or the
/// repository's cache at its commit, to a place of its own below the installed
/// packages, named by the package and its id, and is marked with its hash or
/// its commit. One from a registry is not installed.
pub proof fn law_package_plan(package: LockedPackageView, root: FsPathView, pkgs_root: FsPathView)
    ensures
        package_plan(package, root, pkgs_root) is None <==> package.source is Registry,
        package_plan(package, root, pkgs_root) matches Some(plan) ==> {
            &&& pkg_id_view(package) == Some(plan.id)
            &&& plan.dst.base == pkgs_root.base
            &&& plan.dst.parts == pkgs_root.parts + seq![package.name, plan.id]
            &&& package.source matches LockedSourceView::Path { path } ==> {
                &&& plan.src.base == path
                &&& plan.src.parts.len() == 0
                &&& plan.content_sha256 == package.content_sha256
            }
            &&& package.source matches LockedSourceView::Git { url, rev } ==> {
                &&& plan.src == repo_dir_view(root, url, rev)
                &&& plan.content_sha256 == "git-commit:"@ + rev
            }
        },
{
    if let Some(plan) = package_plan(package, root, pkgs_root) {
        assert(plan.dst.parts =~= pkgs_root.parts + seq![package.name, plan.id]);
    }
}

/// Modules are mapped package by package: those of some packages and then
/// others are those of the first and then of the others.
pub proof fn law_modules_in_order(
    a: Seq<LockedPackageView>,
    b: Seq<LockedPackageView>,
    root: FsPathView,
    pkgs_root: FsPathView,
)
    ensures
        module_links(a + b, root, pkgs_root) == module_links(a, root, pkgs_root) + module_links(b, root, pkgs_root),
    decreases b.len(),
{
    if b.len() == 0 {
        assert(a + b =~= a);
        assert(module_links(a, root, pkgs_root) + module_links(b, root, pkgs_root) =~= module_links(a, root, pkgs_root));
    } else {
        law_modules_in_order(a, b.drop_last(), root, pkgs_root);
        assert((a + b).drop_last() =~= a + b.drop_last());
        assert(module_links(a + b, root, pkgs_root) =~= module_links(a, root, pkgs_root) + module_links(
            b,
            root,
            pkgs_root,
        ));
    }
}

/// A package, unless it is from a registry, has one module: a directory of its
/// name in `nelua_modules`, which leads to where the package is installed.
pub proof fn law_module_of_package(package: LockedPackageView, root: FsPathView, pkgs_root: FsPathView)
    ensures
        package.source is Registry ==> module_links(seq![package], root, pkgs_root).len() == 0,
        !(package.source is Registry) ==> {
            let links = module_links(seq![package], root, pkgs_root);
            &&& links.len() == 1
            &&& links[0].name == package.name
            &&& links[0].installed.base == pkgs_root.base
            &&& links[0].installed.parts == pkgs_root.parts + seq![package.name, pkg_id_view(package)->0]
            &&& links[0].dst.base == root.base
            &&& links[0].dst.parts == root.parts + seq!["nelua_modules"@, package.name]
        },
{
    reveal_with_fuel(module_links, 2);
    assert(seq![package].drop_last() =~= Seq::<LockedPackageView>::empty());
    if !(package.source is Registry) {
        let links = module_links(seq![package], root, pkgs_root);
        assert(links[0].installed.parts =~= pkgs_root.parts + seq![package.name, pkg_id_view(package)->0]);
        assert(links[0].dst.parts =~= root.parts + seq!["nelua_modules"@, package.name]);
    }
}

/// Of packages, those that were newly installed are counted, each once.
pub proof fn law_new_count(a: Seq<bool>, b: Seq<bool>)
    ensures
        new_count(a + b) == new_count(a) + new_count(b),
        new_count(seq![true]) == 1,
        new_count(seq![false]) == 0,
        0 <= new_count(a) <= a.len(),
    decreases a.len() + b.len(),
{
    reveal_with_fuel(new_count, 2);
    if b.len() == 0 {
        assert(a + b =~= a);
    } else {
        law_new_count(a, b.drop_last());
        assert((a + b).drop_last() =~= a + b.drop_last());
    }
    if a.len() > 0 {
        law_new_count(a.drop_last(), Seq::empty());
    }
}

/// A hash or commit of ASCII characters, of whatever length, can be cut to form
/// an id.
pub proof fn law_ascii_can_be_named(package: LockedPackageView)
    ensures
        package.source is Registry ==> can_be_named(package),
        package.source is Path && is_ascii_chars(package.content_sha256) ==> can_be_named(package),
        package.source matches LockedSourceView::Git { rev, .. } ==> (is_ascii_chars(rev) ==> can_be_named(package)),
{
    match package.source {
        LockedSourceView::Path { .. } => {
            if is_ascii_chars(package.content_sha256) {
                law_ascii_cut(package.content_sha256, SHORT_HASH as nat);
            }
        },
        LockedSourceView::Git { rev, .. } => {
            if is_ascii_chars(rev) {
                is_ascii_chars_encode_utf8(rev);
            }
        },
        LockedSourceView::Registry { .. } => {},
    }
}

/// A repository is cloned just where it is wanted and not there, and a package
/// is copied just where it is not in its place.
pub proof fn law_package_steps(source: &LockedSource, src_exists: bool, dst_exists: bool, steps: PackageSteps)
    requires
        call_ensures(package_steps, (source, src_exists, dst_exists), steps),
    ensures
        steps.copy <==> !dst_exists,
        steps.clone ==> !src_exists,
        *source is Git && !src_exists ==> steps.clone,
        !(*source is Git) ==> !steps.clone,
{
}

/// Of packages each is counted once: as newly installed where it was, and as in
/// its place already where it was not.
pub proof fn law_tally(installed: &Vec<bool>, counts: (usize, usize))
    requires
        call_ensures(tally, (installed,), counts),
    ensures
        counts.0 + counts.1 == installed@.len(),
        (forall|i: int| 0 <= i < installed@.len() ==> #[trigger] installed@[i]) ==> counts.1 == 0,
        (forall|i: int| 0 <= i < installed@.len() ==> !#[trigger] installed@[i]) ==> counts.0 == 0,
{
    lemma_all_new(installed@);
}

proof fn lemma_all_new(installed: Seq<bool>)
    ensures
        (forall|i: int| 0 <= i < installed.len() ==> #[trigger] installed[i]) ==> new_count(installed)
            == installed.len(),
        (forall|i: int| 0 <= i < installed.len() ==> !#[trigger] installed[i]) ==> new_count(installed) == 0,
    decreases installed.len(),
{
    if installed.len() > 0 {
        let front = installed.drop_last();
        lemma_all_new(front);
        assert(forall|i: int| 0 <= i < front.len() ==> front[i] == installed[i]);
        assert(installed.last() == installed[installed.len() - 1]);
        if forall|i: int| 0 <= i < installed.len() ==> #[trigger] installed[i] {
            assert(forall|i: int| 0 <= i < front.len() ==> #[trigger] front[i]);
        }
        if forall|i: int| 0 <= i < installed.len() ==> !#[trigger] installed[i] {
            assert(forall|i: int| 0 <= i < front.len() ==> !#[trigger] front[i]);
        }
    }
}

/// A module is warned of just where its package is not installed, by the
/// package's name and place.
pub proof fn law_missing_module(link: &ModuleLink, shown: &str, installed: bool, warning: Option<String>)
    requires
        call_ensures(missing_module, (link, shown, installed), warning),
    ensures
        warning is Some <==> !installed,
        warning matches Some(text) ==> tells(text@, link.name@) && tells(text@, shown@),
{
    if let Some(text) = warning {
        let head = "警告：包 "@;
        let middle = " 的安装目录不存在（"@;
        let tail = "），跳过模块映射"@;
        lemma_tells(head, link.name@, middle + shown@ + tail);
        assert(text@ =~= head + link.name@ + (middle + shown@ + tail));
        lemma_tells(head + link.name@ + middle, shown@, tail);
    }
}

/// A package is refused just where it is from a registry; any other is installed
/// below the installed packages under its name and id, and marked with its hash
/// or its commit.
pub proof fn law_materialize(
    package: &LockedPackage,
    root: &FsPath,
    pkgs_root: &FsPath,
    plan: Result<PackagePlan, InstallError>,
)
    requires
        can_be_named(package@),
        call_ensures(materialize_pkg, (package, root, pkgs_root), plan),
    ensures
        plan is Err <==> package.source is Registry,
        plan matches Ok(p) ==> {
            &&& p.dst@.base == pkgs_root@.base
            &&& p.dst@.parts == pkgs_root@.parts + seq![package.name@, p.id@]
            &&& package.source matches LockedSource::Path { path } ==> p.src@.base == path@ && p.src@.parts.len() == 0
                && p.content_sha256@ == package.content_sha256@
            &&& package.source matches LockedSource::Git { url, rev } ==> p.src@ == repo_dir_view(root@, url@, rev@)
                && p.content_sha256@ == "git-commit:"@ + rev@
        },
{
    law_package_plan(package@, root@, pkgs_root@);
}

/// Where no package is from a registry, each has a module of its name that leads
/// to where it is installed, and there are no other modules.
pub proof fn law_modules_mapping(root: &FsPath, pkgs_root: &FsPath, lock: &Lockfile, links: Vec<ModuleLink>)
    requires
        forall|i: int| 0 <= i < lock@.packages.len() ==> can_be_named(#[trigger] lock@.packages[i]),
        call_ensures(generate_modules_mapping, (root, pkgs_root, lock), links),
        forall|i: int| 0 <= i < lock@.packages.len() ==> !((#[trigger] lock@.packages[i]).source is Registry),
    ensures
        links@.len() == lock@.packages.len(),
        forall|i: int|
            0 <= i < links@.len() ==> {
                let package = lock@.packages[i];
                let link = #[trigger] links@[i];
                &&& link.name@ == package.name
                &&& link.installed@.base == pkgs_root@.base
                &&& link.installed@.parts == pkgs_root@.parts + seq![package.name, pkg_id_view(package)->0]
                &&& link.dst@.base == root@.base
                &&& link.dst@.parts == root@.parts + seq!["nelua_modules"@, package.name]
            },
{
    let all = lock@.packages;
    lemma_links_one_each(all, root@, pkgs_root@);
    assert(views(links@).len() == links@.len());
    assert forall|i: int| 0 <= i < links@.len() implies {
        let package = all[i];
        let link = #[trigger] links@[i];
        &&& link.name@ == package.name
        &&& link.installed@.base == pkgs_root@.base
        &&& link.installed@.parts == pkgs_root@.parts + seq![package.name, pkg_id_view(package)->0]
        &&& link.dst@.base == root@.base
        &&& link.dst@.parts == root@.parts + seq!["nelua_modules"@, package.name]
    } by {
        assert(views(links@)[i] == links@[i]@);
        let package = all[i];
        let link = links@[i]@;
        assert(Some(link) == module_link(package, root@, pkgs_root@));
        assert(link.installed.parts =~= pkgs_root@.parts + seq![package.name, pkg_id_view(package)->0]);
        assert(link.dst.parts =~= root@.parts + seq!["nelua_modules"@, package.name]);
    }
}

proof fn lemma_links_one_each(packages: Seq<LockedPackageView>, root: FsPathView, pkgs_root: FsPathView)
    requires
        forall|i: int| 0 <= i < packages.len() ==> !((#[trigger] packages[i]).source is Registry),
    ensures
        module_links(packages, root, pkgs_root).len() == packages.len(),
        forall|i: int|
            0 <= i < packages.len() ==> Some(#[trigger] module_links(packages, root, pkgs_root)[i]) == module_link(
                packages[i],
                root,
                pkgs_root,
            ),
    decreases packages.len(),
{
    if packages.len() > 0 {
        let front = packages.drop_last();
        assert forall|i: int| 0 <= i < front.len() implies !((#[trigger] front[i]).source is Registry) by {
            assert(front[i] == packages[i]);
        }
        lemma_links_one_each(front, root, pkgs_root);
        assert(packages.last() == packages[packages.len() - 1]);
        assert(module_link(packages.last(), root, pkgs_root) is Some);
        assert forall|i: int| 0 <= i < packages.len() implies Some(
            #[trigger] module_links(packages, root, pkgs_root)[i],
        ) == module_link(packages[i], root, pkgs_root) by {
            if i < front.len() {
                assert(module_links(front, root, pkgs_root)[i] == module_links(packages, root, pkgs_root)[i]);
            }
        }
    }
}

} // verus!
