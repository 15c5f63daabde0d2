//! The lockfile, `neptune.lock`.
use vstd::prelude::*;
use vstd::string::*;
use vstd::utf8::*;

use crate::sort::{
    keys_by, keys_distinct, law_sort_again, law_sort_forgets_order, law_sorted_ascends, law_sorted_keeps_elements,
    lemma_sort_order_exists, sort_by_key, sorted_by, Keyed,
};
use crate::text::{
    bytes_less, bytes_lt, lemma_tells, lemma_utf8_injective, same_text, tells, text_lt, views, Text,
};

verus! {

/// The version of the lockfile format.
pub const LOCK_VERSION: u32 = 2;

/// A dependency as a locked package names it.
#[derive(Debug)]
pub struct LockedDep {
    pub name: String,
    pub version: String,
}

#[verifier::ext_equal]
pub struct LockedDepView {
    pub name: Text,
    pub version: Text,
}

impl View for LockedDep {
    type V = LockedDepView;

    open spec fn view(&self) -> LockedDepView {
        LockedDepView { name: self.name@, version: self.version@ }
    }
}

/// Where a locked package comes from.
#[derive(Debug)]
pub enum LockedSource {
    Registry { url: String, package: String },
    Git { url: String, rev: String },
    Path { path: String },
}

#[verifier::ext_equal]
pub enum LockedSourceView {
    Registry { url: Text, package: Text },
    Git { url: Text, rev: Text },
    Path { path: Text },
}

impl View for LockedSource {
    type V = LockedSourceView;

    open spec fn view(&self) -> LockedSourceView {
        match *self {
            LockedSource::Registry { url, package } => LockedSourceView::Registry { url: url@, package: package@ },
            LockedSource::Git { url, rev } => LockedSourceView::Git { url: url@, rev: rev@ },
            LockedSource::Path { path } => LockedSourceView::Path { path: path@ },
        }
    }
}

/// A package as the lockfile pins it.
#[derive(Debug)]
pub struct LockedPackage {
    pub name: String,
    pub version: String,
    pub source: LockedSource,
    /// What the content is known by: the hash of a directory, or the commit.
    pub content_sha256: String,
    pub dependencies: Vec<LockedDep>,
}

#[verifier::ext_equal]
pub struct LockedPackageView {
    pub name: Text,
    pub version: Text,
    pub source: LockedSourceView,
    pub content_sha256: Text,
    pub dependencies: Seq<LockedDepView>,
}

impl View for LockedPackage {
    type V = LockedPackageView;

    open spec fn view(&self) -> LockedPackageView {
        LockedPackageView {
            name: self.name@,
            version: self.version@,
            source: self.source@,
            content_sha256: self.content_sha256@,
            dependencies: views(self.dependencies@),
        }
    }
}

impl Keyed for LockedPackage {
    open spec fn sort_key(&self) -> Seq<u8> {
        encode_utf8(self.name@)
    }

    fn key_less(&self, other: &Self) -> (less: bool) {
        bytes_less(self.name.as_str().as_bytes(), other.name.as_str().as_bytes())
    }
}

/// What `neptune.lock` says.
#[derive(Debug)]
pub struct Lockfile {
    pub lock_version: u32,
    /// The hash of the manifest that was resolved.
    pub manifest_sha256: String,
    pub packages: Vec<LockedPackage>,
}

#[verifier::ext_equal]
pub struct LockfileView {
    pub lock_version: u32,
    pub manifest_sha256: Text,
    pub packages: Seq<LockedPackageView>,
}

impl View for Lockfile {
    type V = LockfileView;

    open spec fn view(&self) -> LockfileView {
        LockfileView {
            lock_version: self.lock_version,
            manifest_sha256: self.manifest_sha256@,
            packages: views(self.packages@),
        }
    }
}

impl Clone for LockedDep {
    fn clone(&self) -> (copy: LockedDep)
        ensures
            copy@ == self@,
    {
        LockedDep { name: self.name.clone(), version: self.version.clone() }
    }
}

impl Clone for LockedSource {
    fn clone(&self) -> (copy: LockedSource)
        ensures
            copy@ == self@,
    {
        match self {
            LockedSource::Registry { url, package } => LockedSource::Registry {
                url: url.clone(),
                package: package.clone(),
            },
            LockedSource::Git { url, rev } => LockedSource::Git { url: url.clone(), rev: rev.clone() },
            LockedSource::Path { path } => LockedSource::Path { path: path.clone() },
        }
    }
}

impl Clone for LockedPackage {
    fn clone(&self) -> (copy: LockedPackage)
        ensures
            copy@ == self@,
    {
        let mut dependencies: Vec<LockedDep> = Vec::new();
        let mut i: usize = 0;
        while i < self.dependencies.len()
            invariant
                i <= self.dependencies@.len(),
                dependencies@.len() == i,
                forall|k: int| 0 <= k < i ==> (#[trigger] dependencies@[k])@ == self.dependencies@[k]@,
            decreases self.dependencies.len() - i,
        {
            dependencies.push(self.dependencies[i].clone());
            i = i + 1;
        }
        assert(views(dependencies@) =~= views(self.dependencies@));
        LockedPackage {
            name: self.name.clone(),
            version: self.version.clone(),
            source: self.source.clone(),
            content_sha256: self.content_sha256.clone(),
            dependencies,
        }
    }
}

impl Clone for Lockfile {
    fn clone(&self) -> (copy: Lockfile)
        ensures
            copy@ == self@,
    {
        let mut packages: Vec<LockedPackage> = Vec::new();
        let mut i: usize = 0;
        while i < self.packages.len()
            invariant
                i <= self.packages@.len(),
                packages@.len() == i,
                forall|k: int| 0 <= k < i ==> (#[trigger] packages@[k])@ == self.packages@[k]@,
            decreases self.packages.len() - i,
        {
            packages.push(self.packages[i].clone());
            i = i + 1;
        }
        assert(views(packages@) =~= views(self.packages@));
        Lockfile { lock_version: self.lock_version, manifest_sha256: self.manifest_sha256.clone(), packages }
    }
}

/// Why a lockfile is refused.
#[derive(Debug)]
pub enum LockError {
    BadLockVersion,
    EmptyManifestSha,
    EmptyPackageName,
    EmptyVersion(String),
    EmptyContentSha(String),
}

#[verifier::ext_equal]
pub enum LockErrorView {
    BadLockVersion,
    EmptyManifestSha,
    EmptyPackageName,
    EmptyVersion(Text),
    EmptyContentSha(Text),
}

impl View for LockError {
    type V = LockErrorView;

    open spec fn view(&self) -> LockErrorView {
        match *self {
            LockError::BadLockVersion => LockErrorView::BadLockVersion,
            LockError::EmptyManifestSha => LockErrorView::EmptyManifestSha,
            LockError::EmptyPackageName => LockErrorView::EmptyPackageName,
            LockError::EmptyVersion(name) => LockErrorView::EmptyVersion(name@),
            LockError::EmptyContentSha(name) => LockErrorView::EmptyContentSha(name@),
        }
    }
}

impl LockErrorView {
    /// The message for the user.
    pub open spec fn text(self) -> Text {
        match self {
            LockErrorView::BadLockVersion => "lockfile lock_version 不合法"@,
            LockErrorView::EmptyManifestSha => "lockfile manifest_sha256 为空"@,
            LockErrorView::EmptyPackageName => "lockfile 中存在 name 为空的包"@,
            LockErrorView::EmptyVersion(name) => "lockfile 中包 "@ + name + " 的 version 为空"@,
            LockErrorView::EmptyContentSha(name) => "lockfile 中包 "@ + name
                + " 的 content_sha256 为空（请删除 neptune.lock 并重新运行 npt install）"@,
        }
    }
}

impl LockError {
    /// The message for the user.
    pub fn message(&self) -> (text: String)
        ensures
            text@ == self@.text(),
    {
        match self {
            LockError::BadLockVersion => String::from_str("lockfile lock_version 不合法"),
            LockError::EmptyManifestSha => String::from_str("lockfile manifest_sha256 为空"),
            LockError::EmptyPackageName => String::from_str("lockfile 中存在 name 为空的包"),
            LockError::EmptyVersion(name) => String::from_str("lockfile 中包 ").concat(name.as_str()).concat(
                " 的 version 为空",
            ),
            LockError::EmptyContentSha(name) => String::from_str("lockfile 中包 ").concat(name.as_str()).concat(
                " 的 content_sha256 为空（请删除 neptune.lock 并重新运行 npt install）",
            ),
        }
    }
}

impl LockedPackageView {
    /// What is wrong with a locked package.
    pub open spec fn fault(self) -> Option<LockErrorView> {
        if self.name.len() == 0 {
            Some(LockErrorView::EmptyPackageName)
        } else if self.version.len() == 0 {
            Some(LockErrorView::EmptyVersion(self.name))
        } else if self.content_sha256.len() == 0 {
            Some(LockErrorView::EmptyContentSha(self.name))
        } else {
            None
        }
    }
}

/// What is wrong with the first faulty package.
pub open spec fn packages_fault(packages: Seq<LockedPackageView>) -> Option<LockErrorView>
    decreases packages.len(),
{
    if packages.len() == 0 {
        None
    } else {
        match packages_fault(packages.drop_last()) {
            Some(fault) => Some(fault),
            None => packages.last().fault(),
        }
    }
}

/// Packages in the order of their names.
pub open spec fn packages_sorted(packages: Seq<LockedPackageView>) -> Seq<LockedPackageView> {
    sorted_by(packages, |p: LockedPackageView| encode_utf8(p.name))
}

impl LockfileView {
    /// What is wrong with the lockfile.
    pub open spec fn fault(self) -> Option<LockErrorView> {
        if self.lock_version == 0 {
            Some(LockErrorView::BadLockVersion)
        } else if self.manifest_sha256.len() == 0 {
            Some(LockErrorView::EmptyManifestSha)
        } else {
            packages_fault(self.packages)
        }
    }

    /// Whether the lockfile is of the current format and was resolved from
    /// the manifest with that hash.
    pub open spec fn up_to_date(self, manifest_sha: Text) -> bool {
        self.manifest_sha256 == manifest_sha && self.lock_version == LOCK_VERSION
    }

    /// The lockfile as it is written: packages in the order of their names.
    pub open spec fn sorted(self) -> LockfileView {
        LockfileView { packages: packages_sorted(self.packages), ..self }
    }
}

/// Sorts packages by name.
pub fn sort_packages(packages: Vec<LockedPackage>) -> (sorted: Vec<LockedPackage>)
    ensures
        views(sorted@) == packages_sorted(views(packages@)),
{
    proof {
        lemma_packages_sorted(packages@);
    }
    sort_by_key(packages)
}

proof fn lemma_packages_sorted(packages: Seq<LockedPackage>)
    ensures
        views(sorted_by(packages, |p: LockedPackage| p.sort_key())) == packages_sorted(views(packages)),
{
    let keys = keys_by(packages, |p: LockedPackage| p.sort_key());
    let others = keys_by(views(packages), |p: LockedPackageView| encode_utf8(p.name));
    assert(keys =~= others);
    lemma_sort_order_exists(keys);
    assert(views(sorted_by(packages, |p: LockedPackage| p.sort_key())) =~= packages_sorted(views(packages)));
}

/// A fault among the first packages is the fault of them all.
proof fn lemma_packages_fault_prefix(packages: Seq<LockedPackageView>, n: int)
    requires
        0 <= n <= packages.len(),
        packages_fault(packages.take(n)) is Some,
    ensures
        packages_fault(packages) == packages_fault(packages.take(n)),
    decreases packages.len(),
{
    if n == packages.len() {
        assert(packages.take(n) =~= packages);
    } else {
        assert(packages.drop_last().take(n) =~= packages.take(n));
        lemma_packages_fault_prefix(packages.drop_last(), n);
    }
}

/// The fault, if any, that a check has come to.
pub open spec fn lock_fault_of(checked: Result<(), LockError>) -> Option<LockErrorView> {
    match checked {
        Ok(_) => None,
        Err(e) => Some(e@),
    }
}

impl LockedPackage {
    /// Checks that nothing that must be known of the package is empty.
    pub fn validate(&self) -> (checked: Result<(), LockError>)
        ensures
            lock_fault_of(checked) == self@.fault(),
    {
        if self.name.as_str().is_empty() {
            return Err(LockError::EmptyPackageName);
        }
        if self.version.as_str().is_empty() {
            return Err(LockError::EmptyVersion(self.name.clone()));
        }
        if self.content_sha256.as_str().is_empty() {
            return Err(LockError::EmptyContentSha(self.name.clone()));
        }
        Ok(())
    }
}

impl Lockfile {
    /// Whether the lockfile still fits the manifest.
    pub fn is_up_to_date(&self, manifest_sha: &str) -> (fits: bool)
        ensures
            fits == self@.up_to_date(manifest_sha@),
    {
        same_text(self.manifest_sha256.as_str(), manifest_sha) && self.lock_version == LOCK_VERSION
    }

    /// Checks the lockfile: its format version, its manifest hash and, in
    /// order, its packages. The first fault is reported.
    pub fn validate(&self) -> (checked: Result<(), LockError>)
        ensures
            lock_fault_of(checked) == self@.fault(),
    {
        if self.lock_version == 0 {
            return Err(LockError::BadLockVersion);
        }
        if self.manifest_sha256.as_str().is_empty() {
            return Err(LockError::EmptyManifestSha);
        }
        let ghost packages = self@.packages;
        let mut i: usize = 0;
        while i < self.packages.len()
            invariant
                packages == self@.packages,
                i <= packages.len(),
                packages_fault(packages.take(i as int)) is None,
                self@.fault() == packages_fault(packages),
            decreases packages.len() - i,
        {
            let checked = self.packages[i].validate();
            proof {
                assert(packages.take(i + 1).drop_last() =~= packages.take(i as int));
                assert(packages[i as int] == self.packages@[i as int]@);
                if checked is Err {
                    lemma_packages_fault_prefix(packages, i + 1);
                }
            }
            if checked.is_err() {
                return checked;
            }
            i = i + 1;
        }
        assert(packages.take(i as int) =~= packages);
        Ok(())
    }

    /// The lockfile with its packages in the order of their names, as it is
    /// written.
    pub fn sorted(&self) -> (lock: Lockfile)
        ensures
            lock@ == self@.sorted(),
    {
        let copy = self.clone();
        Lockfile {
            lock_version: copy.lock_version,
            manifest_sha256: copy.manifest_sha256,
            packages: sort_packages(copy.packages),
        }
    }
}

/// A lockfile is in order just where its format version is not zero, its
/// manifest hash is known, and each of its packages has a name, a version and
/// a content hash.
pub proof fn law_lock_fault(lock: LockfileView)
    ensures
        lock.fault() is None <==> {
            &&& lock.lock_version != 0
            &&& lock.manifest_sha256.len() > 0
            &&& forall|i: int|
                0 <= i < lock.packages.len() ==> {
                    &&& (#[trigger] lock.packages[i]).name.len() > 0
                    &&& lock.packages[i].version.len() > 0
                    &&& lock.packages[i].content_sha256.len() > 0
                }
        },
{
    lemma_packages_fault(lock.packages);
    if lock.fault() is None {
        assert forall|i: int| 0 <= i < lock.packages.len() implies {
            &&& (#[trigger] lock.packages[i]).name.len() > 0
            &&& lock.packages[i].version.len() > 0
            &&& lock.packages[i].content_sha256.len() > 0
        } by {
            assert(lock.packages[i].fault() is None);
        }
    }
}

pub proof fn lemma_packages_fault(packages: Seq<LockedPackageView>)
    ensures
        packages_fault(packages) is None <==> forall|i: int|
            0 <= i < packages.len() ==> (#[trigger] packages[i]).fault() is None,
    decreases packages.len(),
{
    if packages.len() > 0 {
        let front = packages.drop_last();
        lemma_packages_fault(front);
        if packages_fault(packages) is None {
            assert forall|i: int| 0 <= i < packages.len() implies (#[trigger] packages[i]).fault() is None by {
                if i < front.len() {
                    assert(front[i].fault() is None);
                }
            }
        } else if packages_fault(front) is Some {
            let i = choose|i: int| 0 <= i < front.len() && (#[trigger] front[i]).fault() is Some;
            assert(packages[i].fault() is Some);
        }
    }
}

/// Writing a lockfile puts its packages in the order of their names and
/// changes nothing else: it is in order, and fits a manifest, just where the
/// written one is and does, and a written lockfile is written again as it is.
pub proof fn law_written_lock(lock: LockfileView, manifest_sha: Text)
    ensures
        lock.sorted().fault() is None <==> lock.fault() is None,
        lock.sorted().up_to_date(manifest_sha) == lock.up_to_date(manifest_sha),
        lock.sorted().sorted() == lock.sorted(),
        forall|p: LockedPackageView| #[trigger] lock.sorted().packages.contains(p) <==> lock.packages.contains(p),
        forall|i: int, j: int|
            0 <= i < j < lock.packages.len() ==> !text_lt(
                (#[trigger] lock.sorted().packages[j]).name,
                (#[trigger] lock.sorted().packages[i]).name,
            ),
{
    let key = |p: LockedPackageView| encode_utf8(p.name);
    let sorted = lock.sorted().packages;
    law_sorted_keeps_elements(lock.packages, key);
    law_sort_again(lock.packages, key);
    law_sorted_ascends(lock.packages, key);
    assert forall|i: int, j: int| 0 <= i < j < lock.packages.len() implies !text_lt(
        (#[trigger] sorted[j]).name,
        (#[trigger] sorted[i]).name,
    ) by {
        assert(!bytes_lt(key(sorted_by(lock.packages, key)[j]), key(sorted_by(lock.packages, key)[i])));
    }
    lemma_packages_fault(lock.packages);
    lemma_packages_fault(sorted);
    assert forall|p: LockedPackageView| #[trigger] sorted.contains(p) <==> lock.packages.contains(p) by {
        assert(sorted_by(lock.packages, key).contains(p) <==> lock.packages.contains(p));
    }
    if packages_fault(lock.packages) is Some {
        let i = choose|i: int| 0 <= i < lock.packages.len() && (#[trigger] lock.packages[i]).fault() is Some;
        assert(lock.packages.contains(lock.packages[i]));
        assert(sorted.contains(lock.packages[i]));
        let j = choose|j: int| 0 <= j < sorted.len() && sorted[j] == lock.packages[i];
        assert(sorted[j].fault() is Some);
    }
    if packages_fault(sorted) is Some {
        let i = choose|i: int| 0 <= i < sorted.len() && (#[trigger] sorted[i]).fault() is Some;
        assert(sorted.contains(sorted[i]));
        let j = choose|j: int| 0 <= j < lock.packages.len() && lock.packages[j] == sorted[i];
        assert(lock.packages[j].fault() is Some);
    }
}

/// Whether no two packages have the same name.
pub open spec fn names_distinct(packages: Seq<LockedPackageView>) -> bool {
    forall|i: int, j: int|
        0 <= i < packages.len() && 0 <= j < packages.len() && i != j ==> (#[trigger] packages[i]).name != (
        #[trigger] packages[j]).name
}

/// What is written does not depend on the order in which packages were found.
pub proof fn law_written_order(a: Seq<LockedPackageView>, b: Seq<LockedPackageView>)
    requires
        names_distinct(a),
        names_distinct(b),
        forall|p: LockedPackageView| #[trigger] a.contains(p) <==> b.contains(p),
    ensures
        packages_sorted(a) == packages_sorted(b),
{
    let key = |p: LockedPackageView| encode_utf8(p.name);
    lemma_names_distinct(a);
    lemma_names_distinct(b);
    law_sort_forgets_order(a, b, key);
}

proof fn lemma_names_distinct(packages: Seq<LockedPackageView>)
    requires
        names_distinct(packages),
    ensures
        keys_distinct(packages, |p: LockedPackageView| encode_utf8(p.name)),
{
    let key = |p: LockedPackageView| encode_utf8(p.name);
    assert forall|i: int, j: int| 0 <= i < packages.len() && 0 <= j < packages.len() && i != j implies key(
        #[trigger] packages[i],
    ) != key(#[trigger] packages[j]) by {
        if encode_utf8(packages[i].name) == encode_utf8(packages[j].name) {
            lemma_utf8_injective(packages[i].name, packages[j].name);
        }
    }
}

/// Which fault of a locked package is reported: that its name is empty, else
/// that its version is, else that its content hash is; the report names it.
pub proof fn law_locked_package_fault(p: LockedPackageView)
    ensures
        p.fault() is None <==> p.name.len() > 0 && p.version.len() > 0 && p.content_sha256.len() > 0,
        p.name.len() == 0 ==> p.fault() == Some(LockErrorView::EmptyPackageName),
        p.name.len() > 0 && p.version.len() == 0 ==> p.fault() == Some(LockErrorView::EmptyVersion(p.name)),
        p.name.len() > 0 && p.version.len() > 0 && p.content_sha256.len() == 0 ==> p.fault() == Some(
            LockErrorView::EmptyContentSha(p.name),
        ),
{
}

/// The faults of a lockfile come in order: its format version, its manifest
/// hash, and then its packages, of which the first faulty one is reported.
pub proof fn law_lock_fault_order(lock: LockfileView, i: int)
    ensures
        lock.lock_version == 0 ==> lock.fault() == Some(LockErrorView::BadLockVersion),
        lock.lock_version != 0 && lock.manifest_sha256.len() == 0 ==> lock.fault() == Some(
            LockErrorView::EmptyManifestSha,
        ),
        lock.lock_version != 0 && lock.manifest_sha256.len() > 0 && 0 <= i < lock.packages.len()
            && lock.packages[i].fault() is Some && (forall|k: int|
            0 <= k < i ==> (#[trigger] lock.packages[k]).fault() is None) ==> lock.fault() == lock.packages[i].fault(),
{
    let all = lock.packages;
    if 0 <= i < all.len() && all[i].fault() is Some && (forall|k: int|
        0 <= k < i ==> (#[trigger] all[k]).fault() is None) {
        let part = all.take(i + 1);
        assert(part.drop_last() =~= all.take(i));
        lemma_packages_fault(all.take(i));
        assert(part.last() == all[i]);
        lemma_packages_fault_prefix(all, i + 1);
    }
}

/// A lockfile fits a manifest just where it has the manifest's hash and is of
/// format version 2.
pub proof fn law_up_to_date(lock: LockfileView, manifest_sha: Text)
    ensures
        lock.up_to_date(manifest_sha) <==> lock.manifest_sha256 == manifest_sha && lock.lock_version == 2,
{
}

/// A written lockfile has the format version and the manifest hash of the
/// lockfile, and as many packages.
pub proof fn law_written_head(lock: LockfileView)
    ensures
        lock.sorted().lock_version == lock.lock_version,
        lock.sorted().manifest_sha256 == lock.manifest_sha256,
        lock.sorted().packages.len() == lock.packages.len(),
{
    law_sorted_keeps_elements(lock.packages, |p: LockedPackageView| encode_utf8(p.name));
}

/// The message on a faulty package tells its name.
pub proof fn law_lock_message(fault: LockErrorView)
    ensures
        fault matches LockErrorView::EmptyVersion(name) ==> tells(fault.text(), name),
        fault matches LockErrorView::EmptyContentSha(name) ==> tells(fault.text(), name),
{
    match fault {
        LockErrorView::EmptyVersion(name) => {
            lemma_tells("lockfile 中包 "@, name, " 的 version 为空"@);
        },
        LockErrorView::EmptyContentSha(name) => {
            lemma_tells(
                "lockfile 中包 "@,
                name,
                " 的 content_sha256 为空（请删除 neptune.lock 并重新运行 npt install）"@,
            );
        },
        _ => {},
    }
}

/// The wording of each message, which users search for.
pub proof fn law_lock_wording(name: Text)
    ensures
        LockErrorView::BadLockVersion.text() == "lockfile lock_version 不合法"@,
        LockErrorView::EmptyManifestSha.text() == "lockfile manifest_sha256 为空"@,
        LockErrorView::EmptyPackageName.text() == "lockfile 中存在 name 为空的包"@,
        LockErrorView::EmptyVersion(name).text() == "lockfile 中包 "@ + name + " 的 version 为空"@,
        LockErrorView::EmptyContentSha(name).text() == "lockfile 中包 "@ + name
            + " 的 content_sha256 为空（请删除 neptune.lock 并重新运行 npt install）"@,
{
}

} // verus!
