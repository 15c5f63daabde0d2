//! The project manifest, `neptune.toml`.
use vstd::prelude::*;
use vstd::string::*;
use vstd::utf8::*;

use crate::text::{
    blank, bytes_less, is_blank, is_white, lemma_bytes_lt_transitive, lemma_tells, lemma_text_lt_order, opt_view,
    same_text, tells, text_lt, views, Text,
};
use crate::version::{is_short_version, version_parses, version_req_parses, Version, VersionReq};

verus! {

/// How a dependency is asked for: by a version requirement alone, or in
/// detail.
#[derive(Debug)]
pub enum DepSpec {
    VersionReq(String),
    Detailed {
        version: Option<String>,
        git: Option<String>,
        rev: Option<String>,
        tag: Option<String>,
        branch: Option<String>,
        path: Option<String>,
        registry: Option<String>,
        optional: Option<bool>,
    },
}

#[verifier::ext_equal]
pub enum DepSpecView {
    VersionReq(Text),
    Detailed {
        version: Option<Text>,
        git: Option<Text>,
        rev: Option<Text>,
        tag: Option<Text>,
        branch: Option<Text>,
        path: Option<Text>,
        registry: Option<Text>,
        optional: Option<bool>,
    },
}

impl View for DepSpec {
    type V = DepSpecView;

    open spec fn view(&self) -> DepSpecView {
        match *self {
            DepSpec::VersionReq(v) => DepSpecView::VersionReq(v@),
            DepSpec::Detailed { version, git, rev, tag, branch, path, registry, optional } => DepSpecView::Detailed {
                version: opt_view(version),
                git: opt_view(git),
                rev: opt_view(rev),
                tag: opt_view(tag),
                branch: opt_view(branch),
                path: opt_view(path),
                registry: opt_view(registry),
                optional,
            },
        }
    }
}

impl Clone for DepSpec {
    fn clone(&self) -> (copy: DepSpec)
        ensures
            copy@ == self@,
    {
        match self {
            DepSpec::VersionReq(v) => DepSpec::VersionReq(v.clone()),
            DepSpec::Detailed { version, git, rev, tag, branch, path, registry, optional } => DepSpec::Detailed {
                version: clone_opt(version),
                git: clone_opt(git),
                rev: clone_opt(rev),
                tag: clone_opt(tag),
                branch: clone_opt(branch),
                path: clone_opt(path),
                registry: clone_opt(registry),
                optional: *optional,
            },
        }
    }
}

/// A copy of an optional string.
pub fn clone_opt(o: &Option<String>) -> (copy: Option<String>)
    ensures
        copy == *o,
{
    match o {
        Some(s) => Some(s.clone()),
        None => None,
    }
}

impl DepSpecView {
    /// The version requirement that the dependency states, if any.
    pub open spec fn requirement(self) -> Option<Text> {
        match self {
            DepSpecView::VersionReq(v) => Some(v),
            DepSpecView::Detailed { version, .. } => version,
        }
    }
}

impl DepSpec {
    /// The version requirement that the dependency states, if any.
    pub fn requirement(&self) -> (req: Option<&String>)
        ensures
            match req {
                Some(s) => self@.requirement() == Some(s@),
                None => self@.requirement() is None,
            },
    {
        match self {
            DepSpec::VersionReq(v) => Some(v),
            DepSpec::Detailed { version, .. } => version.as_ref(),
        }
    }

    /// The version requirement, where one is stated and reads as one.
    pub fn as_version_req(&self) -> (req: Option<VersionReq>)
        ensures
            match req {
                Some(r) => self@.requirement() == Some(r@) && version_req_parses(r@),
                None => match self@.requirement() {
                    Some(text) => !version_req_parses(text),
                    None => true,
                },
            },
    {
        match self.requirement() {
            Some(text) => VersionReq::parse(text.as_str()),
            None => None,
        }
    }
}

/// Dependencies by name. Each name occurs once, and names ascend in byte
/// order.
#[derive(Debug)]
pub struct DepMap {
    entries: Vec<(String, DepSpec)>,
}

impl View for DepMap {
    type V = Seq<(Text, DepSpecView)>;

    closed spec fn view(&self) -> Seq<(Text, DepSpecView)> {
        Seq::new(self.entries@.len(), |i: int| (self.entries@[i].0@, self.entries@[i].1@))
    }
}

/// Whether names ascend, so that none occurs twice.
pub open spec fn names_ascend(deps: Seq<(Text, DepSpecView)>) -> bool {
    forall|i: int, j: int| 0 <= i < j < deps.len() ==> text_lt((#[trigger] deps[i]).0, (#[trigger] deps[j]).0)
}

/// The names of dependencies.
pub open spec fn dep_names(deps: Seq<(Text, DepSpecView)>) -> Seq<Text> {
    Seq::new(deps.len(), |i: int| deps[i].0)
}

impl DepMap {
    pub open spec fn wf(&self) -> bool {
        names_ascend(self@)
    }

    pub fn new() -> (deps: DepMap)
        ensures
            deps.wf(),
            deps@ == Seq::<(Text, DepSpecView)>::empty(),
    {
        let deps = DepMap { entries: Vec::new() };
        assert(deps@ =~= Seq::empty());
        deps
    }

    pub fn len(&self) -> (n: usize)
        ensures
            n == self@.len(),
    {
        self.entries.len()
    }

    pub fn name(&self, i: usize) -> (name: &String)
        requires
            i < self@.len(),
        ensures
            name@ == self@[i as int].0,
    {
        &self.entries[i].0
    }

    pub fn dep(&self, i: usize) -> (dep: &DepSpec)
        requires
            i < self@.len(),
        ensures
            dep@ == self@[i as int].1,
    {
        &self.entries[i].1
    }

    /// Sets the dependency of that name, in place of an earlier one.
    pub fn insert(&mut self, name: String, spec: DepSpec)
        requires
            old(self).wf(),
        ensures
            final(self).wf(),
            forall|n: Text, s: DepSpecView| #[trigger] final(self)@.contains((n, s)) <==> if n == name@ {
                s == spec@
            } else {
                old(self)@.contains((n, s))
            },
    {
        let ghost before = self@;
        let mut i: usize = 0;
        while i < self.entries.len() && bytes_less(self.entries[i].0.as_str().as_bytes(), name.as_str().as_bytes())
            invariant
                self@ == before,
                i <= before.len(),
                forall|k: int| 0 <= k < i ==> text_lt((#[trigger] before[k]).0, name@),
            decreases before.len() - i,
        {
            assert(before[i as int].0 == self.entries@[i as int].0@);
            i = i + 1;
        }
        let ghost entry = (name@, spec@);
        if i < self.entries.len() && same_text(self.entries[i].0.as_str(), name.as_str()) {
            assert(before[i as int].0 == name@);
            self.entries[i] = (name, spec);
            proof {
                assert(self@ =~= before.update(i as int, entry));
                lemma_update_dep(before, i as int, entry);
            }
        } else {
            proof {
                if i < before.len() {
                    assert(before[i as int].0 == self.entries@[i as int].0@);
                    lemma_text_lt_order(before[i as int].0, name@);
                }
            }
            self.entries.insert(i, (name, spec));
            proof {
                assert(self@ =~= before.insert(i as int, entry));
                lemma_insert_dep(before, i as int, entry);
            }
        }
    }
}

proof fn lemma_update_dep(before: Seq<(Text, DepSpecView)>, i: int, entry: (Text, DepSpecView))
    requires
        names_ascend(before),
        0 <= i < before.len(),
        before[i].0 == entry.0,
    ensures
        names_ascend(before.update(i, entry)),
        forall|n: Text, s: DepSpecView| #[trigger] before.update(i, entry).contains((n, s)) <==> if n == entry.0 {
            s == entry.1
        } else {
            before.contains((n, s))
        },
{
    let after = before.update(i, entry);
    assert forall|n: Text, s: DepSpecView| #[trigger] after.contains((n, s)) <==> if n == entry.0 {
        s == entry.1
    } else {
        before.contains((n, s))
    } by {
        if after.contains((n, s)) {
            let k = choose|k: int| 0 <= k < after.len() && after[k] == (n, s);
            if k != i {
                assert(before[k] == (n, s));
                if n == entry.0 {
                    lemma_text_lt_order(n, n);
                    if k < i {
                        assert(text_lt(before[k].0, before[i].0));
                    } else {
                        assert(text_lt(before[i].0, before[k].0));
                    }
                }
            }
        }
        if n == entry.0 && s == entry.1 {
            assert(after[i] == (n, s));
        }
        if n != entry.0 && before.contains((n, s)) {
            let k = choose|k: int| 0 <= k < before.len() && before[k] == (n, s);
            assert(after[k] == (n, s));
        }
    }
}

proof fn lemma_insert_dep(before: Seq<(Text, DepSpecView)>, i: int, entry: (Text, DepSpecView))
    requires
        names_ascend(before),
        0 <= i <= before.len(),
        forall|k: int| 0 <= k < i ==> text_lt((#[trigger] before[k]).0, entry.0),
        i < before.len() ==> text_lt(entry.0, before[i].0),
    ensures
        names_ascend(before.insert(i, entry)),
        forall|n: Text, s: DepSpecView| #[trigger] before.insert(i, entry).contains((n, s)) <==> if n == entry.0 {
            s == entry.1
        } else {
            before.contains((n, s))
        },
{
    let after = before.insert(i, entry);
    assert forall|k: int| i <= k < before.len() implies text_lt(entry.0, (#[trigger] before[k]).0) by {
        if k > i {
            lemma_bytes_lt_transitive(encode_utf8(entry.0), encode_utf8(before[i].0), encode_utf8(before[k].0));
        }
    }
    assert forall|a: int, b: int| 0 <= a < b < after.len() implies text_lt(
        (#[trigger] after[a]).0,
        (#[trigger] after[b]).0,
    ) by {
        let x = if a < i { a } else { a - 1 };
        let y = if b < i { b } else { b - 1 };
        if a != i {
            assert(after[a] == before[x]);
        }
        if b != i {
            assert(after[b] == before[y]);
        }
    }
    assert forall|n: Text, s: DepSpecView| #[trigger] after.contains((n, s)) <==> if n == entry.0 {
        s == entry.1
    } else {
        before.contains((n, s))
    } by {
        lemma_text_lt_order(entry.0, entry.0);
        if after.contains((n, s)) {
            let k = choose|k: int| 0 <= k < after.len() && after[k] == (n, s);
            if k < i {
                assert(before[k] == (n, s));
            } else if k > i {
                assert(before[k - 1] == (n, s));
            }
        }
        if n == entry.0 && s == entry.1 {
            assert(after[i] == (n, s));
        }
        if before.contains((n, s)) {
            let k = choose|k: int| 0 <= k < before.len() && before[k] == (n, s);
            if k < i {
                assert(after[k] == (n, s));
            } else {
                assert(after[k + 1] == (n, s));
            }
        }
    }
}

impl Clone for DepMap {
    fn clone(&self) -> (copy: DepMap)
        ensures
            copy@ == self@,
    {
        let mut entries: Vec<(String, DepSpec)> = Vec::new();
        let mut i: usize = 0;
        while i < self.entries.len()
            invariant
                i <= self.entries@.len(),
                entries@.len() == i,
                forall|k: int|
                    0 <= k < i ==> (#[trigger] entries@[k]).0@ == self.entries@[k].0@ && entries@[k].1@
                        == self.entries@[k].1@,
            decreases self.entries.len() - i,
        {
            entries.push((self.entries[i].0.clone(), self.entries[i].1.clone()));
            i = i + 1;
        }
        let copy = DepMap { entries };
        assert(copy@ =~= self@);
        copy
    }
}

/// The entry points of a package.
#[derive(Debug)]
pub struct Entry {
    pub app: Option<String>,
    pub lib: Option<String>,
}

#[verifier::ext_equal]
pub struct EntryView {
    pub app: Option<Text>,
    pub lib: Option<Text>,
}

impl View for Entry {
    type V = EntryView;

    open spec fn view(&self) -> EntryView {
        EntryView { app: opt_view(self.app), lib: opt_view(self.lib) }
    }
}

impl Default for Entry {
    fn default() -> (entry: Entry)
        ensures
            entry@ == (EntryView { app: None, lib: None }),
    {
        Entry { app: None, lib: None }
    }
}

/// What `neptune.toml` says.
#[derive(Debug)]
pub struct Manifest {
    pub name: String,
    pub version: String,
    pub description: Option<String>,
    pub license: Option<String>,
    pub authors: Option<Vec<String>>,
    pub repository: Option<String>,
    pub entry: Entry,
    pub dependencies: DepMap,
    pub dev_dependencies: DepMap,
}

#[verifier::ext_equal]
pub struct ManifestView {
    pub name: Text,
    pub version: Text,
    pub description: Option<Text>,
    pub license: Option<Text>,
    pub authors: Option<Seq<Text>>,
    pub repository: Option<Text>,
    pub entry: EntryView,
    pub dependencies: Seq<(Text, DepSpecView)>,
    pub dev_dependencies: Seq<(Text, DepSpecView)>,
}

impl View for Manifest {
    type V = ManifestView;

    open spec fn view(&self) -> ManifestView {
        ManifestView {
            name: self.name@,
            version: self.version@,
            description: opt_view(self.description),
            license: opt_view(self.license),
            authors: match self.authors {
                Some(list) => Some(views(list@)),
                None => None,
            },
            repository: opt_view(self.repository),
            entry: self.entry@,
            dependencies: self.dependencies@,
            dev_dependencies: self.dev_dependencies@,
        }
    }
}

/// Why a manifest is refused.
#[derive(Debug)]
pub enum ManifestError {
    EmptyName,
    BadName(String),
    BadVersion(String),
    NoEntry,
    EmptyDepName,
    BadRequirement { dep: String, req: String },
    GitAndPath(String),
    SeveralPins(String),
}

#[verifier::ext_equal]
pub enum ManifestErrorView {
    EmptyName,
    BadName(Text),
    BadVersion(Text),
    NoEntry,
    EmptyDepName,
    BadRequirement { dep: Text, req: Text },
    GitAndPath(Text),
    SeveralPins(Text),
}

impl View for ManifestError {
    type V = ManifestErrorView;

    open spec fn view(&self) -> ManifestErrorView {
        match *self {
            ManifestError::EmptyName => ManifestErrorView::EmptyName,
            ManifestError::BadName(name) => ManifestErrorView::BadName(name@),
            ManifestError::BadVersion(version) => ManifestErrorView::BadVersion(version@),
            ManifestError::NoEntry => ManifestErrorView::NoEntry,
            ManifestError::EmptyDepName => ManifestErrorView::EmptyDepName,
            ManifestError::BadRequirement { dep, req } => ManifestErrorView::BadRequirement { dep: dep@, req: req@ },
            ManifestError::GitAndPath(dep) => ManifestErrorView::GitAndPath(dep@),
            ManifestError::SeveralPins(dep) => ManifestErrorView::SeveralPins(dep@),
        }
    }
}

impl ManifestErrorView {
    /// The message for the user.
    pub open spec fn text(self) -> Text {
        match self {
            ManifestErrorView::EmptyName => "manifest.name 不能为空"@,
            ManifestErrorView::BadName(name) => "manifest.name 只能包含小写字母/数字/连字符(-): "@ + name,
            ManifestErrorView::BadVersion(version) => "manifest.version 不是合法 semver: "@ + version,
            ManifestErrorView::NoEntry => "[entry] 至少需要 app 或 lib 之一"@,
            ManifestErrorView::EmptyDepName => "依赖名不能为空"@,
            ManifestErrorView::BadRequirement { dep, req } => "依赖 "@ + dep + " 的版本范围不合法: "@ + req,
            ManifestErrorView::GitAndPath(dep) => "依赖 "@ + dep + " 不能同时设置 git 与 path"@,
            ManifestErrorView::SeveralPins(dep) => "依赖 "@ + dep + " 的 rev/tag/branch 只能设置一个"@,
        }
    }
}

impl ManifestError {
    /// The message for the user.
    pub fn message(&self) -> (text: String)
        ensures
            text@ == self@.text(),
    {
        match self {
            ManifestError::EmptyName => String::from_str("manifest.name 不能为空"),
            ManifestError::BadName(name) => String::from_str("manifest.name 只能包含小写字母/数字/连字符(-): ").concat(
                name.as_str(),
            ),
            ManifestError::BadVersion(version) => String::from_str("manifest.version 不是合法 semver: ").concat(
                version.as_str(),
            ),
            ManifestError::NoEntry => String::from_str("[entry] 至少需要 app 或 lib 之一"),
            ManifestError::EmptyDepName => String::from_str("依赖名不能为空"),
            ManifestError::BadRequirement { dep, req } => String::from_str("依赖 ").concat(dep.as_str()).concat(
                " 的版本范围不合法: ",
            ).concat(req.as_str()),
            ManifestError::GitAndPath(dep) => String::from_str("依赖 ").concat(dep.as_str()).concat(
                " 不能同时设置 git 与 path",
            ),
            ManifestError::SeveralPins(dep) => String::from_str("依赖 ").concat(dep.as_str()).concat(
                " 的 rev/tag/branch 只能设置一个",
            ),
        }
    }
}

/// Whether a character may stand in a package name.
pub open spec fn is_name_char(c: char) -> bool {
    'a' <= c <= 'z' || '0' <= c <= '9' || c == '-'
}

/// How many of three options are set.
pub open spec fn count_set<A, B, C>(a: Option<A>, b: Option<B>, c: Option<C>) -> int {
    (if a is Some { 1int } else { 0 }) + (if b is Some { 1int } else { 0 }) + (if c is Some { 1int } else { 0 })
}

/// What is wrong with a dependency; `req_ok` says whether the requirement it
/// states, if any, reads as one.
pub open spec fn dep_fault(name: Text, spec: DepSpecView, req_ok: bool) -> Option<ManifestErrorView> {
    if is_blank(name) {
        Some(ManifestErrorView::EmptyDepName)
    } else if spec.requirement() is Some && !req_ok {
        Some(ManifestErrorView::BadRequirement { dep: name, req: spec.requirement()->0 })
    } else {
        match spec {
            DepSpecView::VersionReq(_) => None,
            DepSpecView::Detailed { git, path, rev, tag, branch, .. } => if git is Some && path is Some {
                Some(ManifestErrorView::GitAndPath(name))
            } else if count_set(rev, tag, branch) > 1 {
                Some(ManifestErrorView::SeveralPins(name))
            } else {
                None
            },
        }
    }
}

/// What is wrong with the first faulty dependency.
pub open spec fn deps_fault(deps: Seq<(Text, DepSpecView)>, req_ok: Seq<bool>) -> Option<ManifestErrorView>
    decreases deps.len(),
{
    if deps.len() == 0 {
        None
    } else {
        match deps_fault(deps.drop_last(), req_ok.drop_last()) {
            Some(fault) => Some(fault),
            None => dep_fault(deps.last().0, deps.last().1, req_ok.last()),
        }
    }
}

impl ManifestView {
    /// All dependencies: those of the package, then those of its development.
    pub open spec fn all_deps(self) -> Seq<(Text, DepSpecView)> {
        self.dependencies + self.dev_dependencies
    }

    /// What is wrong with the manifest, given whether its version reads as
    /// one and whether each requirement does.
    pub open spec fn fault(self, version_ok: bool, req_ok: Seq<bool>) -> Option<ManifestErrorView> {
        if is_blank(self.name) {
            Some(ManifestErrorView::EmptyName)
        } else if !(forall|i: int| 0 <= i < self.name.len() ==> is_name_char(#[trigger] self.name[i])) {
            Some(ManifestErrorView::BadName(self.name))
        } else if !version_ok {
            Some(ManifestErrorView::BadVersion(self.version))
        } else if self.entry.app is None && self.entry.lib is None {
            Some(ManifestErrorView::NoEntry)
        } else {
            deps_fault(self.all_deps(), req_ok)
        }
    }

    /// For each dependency, whether the requirement it states, if any, reads
    /// as one.
    pub open spec fn requirements_read(self) -> Seq<bool> {
        Seq::new(self.all_deps().len(), |i: int| requirement_reads(self.all_deps()[i].1))
    }
}

/// Whether the requirement that a dependency states, if any, reads as one.
pub open spec fn requirement_reads(spec: DepSpecView) -> bool {
    match spec.requirement() {
        Some(text) => version_req_parses(text),
        None => true,
    }
}

/// The fault, if any, that a check has come to.
pub open spec fn fault_of(checked: Result<(), ManifestError>) -> Option<ManifestErrorView> {
    match checked {
        Ok(_) => None,
        Err(e) => Some(e@),
    }
}

/// Checks one dependency, given whether the requirement it states reads as
/// one.
pub fn check_dep(name: &str, spec: &DepSpec, req_ok: bool) -> (checked: Result<(), ManifestError>)
    ensures
        fault_of(checked) == dep_fault(name@, spec@, req_ok),
{
    if blank(name) {
        return Err(ManifestError::EmptyDepName);
    }
    match spec.requirement() {
        Some(req) => {
            if !req_ok {
                return Err(ManifestError::BadRequirement { dep: String::from_str(name), req: req.clone() });
            }
        },
        None => {},
    }
    match spec {
        DepSpec::VersionReq(_) => Ok(()),
        DepSpec::Detailed { git, path, rev, tag, branch, .. } => {
            if git.is_some() && path.is_some() {
                return Err(ManifestError::GitAndPath(String::from_str(name)));
            }
            let mut pins: u8 = 0;
            if rev.is_some() {
                pins = pins + 1;
            }
            if tag.is_some() {
                pins = pins + 1;
            }
            if branch.is_some() {
                pins = pins + 1;
            }
            if pins > 1 {
                return Err(ManifestError::SeveralPins(String::from_str(name)));
            }
            Ok(())
        },
    }
}

fn is_package_name(name: &str) -> (ok: bool)
    ensures
        ok == forall|i: int| 0 <= i < name@.len() ==> is_name_char(#[trigger] name@[i]),
{
    let chars = crate::text::chars_of(name);
    let mut i: usize = 0;
    while i < chars.len()
        invariant
            chars@ == name@,
            i <= chars@.len(),
            forall|k: int| 0 <= k < i ==> is_name_char(#[trigger] name@[k]),
        decreases chars.len() - i,
    {
        let c = chars[i];
        if !(('a' <= c && c <= 'z') || ('0' <= c && c <= '9') || c == '-') {
            assert(!is_name_char(name@[i as int]));
            return false;
        }
        i = i + 1;
    }
    true
}

impl Manifest {
    pub open spec fn wf(&self) -> bool {
        self.dependencies.wf() && self.dev_dependencies.wf()
    }

    /// The name and spec of a dependency, counting those of the package and
    /// then those of its development.
    fn dep(&self, i: usize) -> (dep: (&String, &DepSpec))
        requires
            i < self@.all_deps().len(),
        ensures
            dep.0@ == self@.all_deps()[i as int].0,
            dep.1@ == self@.all_deps()[i as int].1,
    {
        let n: usize = self.dependencies.len();
        if i < n {
            (self.dependencies.name(i), self.dependencies.dep(i))
        } else {
            (self.dev_dependencies.name(i - n), self.dev_dependencies.dep(i - n))
        }
    }

    /// Checks the manifest, given whether its version reads as one and, for
    /// each dependency, whether its requirement does.
    pub fn validate_with(&self, version_ok: bool, req_ok: &Vec<bool>) -> (checked: Result<(), ManifestError>)
        requires
            req_ok@.len() == self@.all_deps().len(),
        ensures
            fault_of(checked) == self@.fault(version_ok, req_ok@),
    {
        if blank(self.name.as_str()) {
            return Err(ManifestError::EmptyName);
        }
        if !is_package_name(self.name.as_str()) {
            return Err(ManifestError::BadName(self.name.clone()));
        }
        if !version_ok {
            return Err(ManifestError::BadVersion(self.version.clone()));
        }
        if self.entry.app.is_none() && self.entry.lib.is_none() {
            return Err(ManifestError::NoEntry);
        }
        let ghost deps = self@.all_deps();
        let mut i: usize = 0;
        while i < req_ok.len()
            invariant
                deps == self@.all_deps(),
                req_ok@.len() == deps.len(),
                i <= deps.len(),
                deps_fault(deps.take(i as int), req_ok@.take(i as int)) is None,
                self@.fault(version_ok, req_ok@) == deps_fault(deps, req_ok@),
            decreases req_ok.len() - i,
        {
            let (name, spec) = self.dep(i);
            let checked = check_dep(name.as_str(), spec, req_ok[i]);
            proof {
                assert(deps.take(i + 1).drop_last() =~= deps.take(i as int));
                assert(req_ok@.take(i + 1).drop_last() =~= req_ok@.take(i as int));
                if checked is Err {
                    lemma_deps_fault_prefix(deps, req_ok@, i + 1);
                }
            }
            if checked.is_err() {
                return checked;
            }
            i = i + 1;
        }
        assert(deps.take(i as int) =~= deps);
        assert(req_ok@.take(i as int) =~= req_ok@);
        Ok(())
    }

    /// Checks the manifest: its name, its version, its entry points and, in
    /// order, its dependencies. The first fault is reported.
    pub fn validate(&self) -> (checked: Result<(), ManifestError>)
        ensures
            fault_of(checked) == self@.fault(version_parses(self@.version), self@.requirements_read()),
            is_short_version(self@.version) ==> version_parses(self@.version),
    {
        let version_ok = Version::parse(self.version.as_str()).is_some();
        let mut req_ok: Vec<bool> = Vec::new();
        read_requirements(&self.dependencies, &mut req_ok);
        read_requirements(&self.dev_dependencies, &mut req_ok);
        assert(req_ok@ =~= self@.requirements_read());
        self.validate_with(version_ok, &req_ok)
    }
}

/// Whether the requirement of each dependency, if any, reads as one.
pub open spec fn all_read(deps: Seq<(Text, DepSpecView)>) -> Seq<bool> {
    Seq::new(deps.len(), |i: int| requirement_reads(deps[i].1))
}

/// Adds, for each dependency, whether its requirement reads as one.
fn read_requirements(deps: &DepMap, req_ok: &mut Vec<bool>)
    ensures
        final(req_ok)@ == old(req_ok)@ + all_read(deps@),
{
    let mut i: usize = 0;
    assert(old(req_ok)@ + all_read(deps@).take(0) =~= old(req_ok)@);
    while i < deps.len()
        invariant
            i <= deps@.len(),
            req_ok@ == old(req_ok)@ + all_read(deps@).take(i as int),
        decreases deps@.len() - i,
    {
        let spec = deps.dep(i);
        let ok = match spec.requirement() {
            Some(_) => spec.as_version_req().is_some(),
            None => true,
        };
        req_ok.push(ok);
        assert(all_read(deps@).take(i + 1) =~= all_read(deps@).take(i as int).push(all_read(deps@)[i as int]));
        i = i + 1;
    }
    assert(all_read(deps@).take(i as int) =~= all_read(deps@));
}

/// The manifest that a new project starts with. The project is called by the
/// given name, else by that of its directory, else `neptune-project`; its
/// program is `src/main.nelua` unless told otherwise.
pub open spec fn new_manifest(
    name: Option<Text>,
    dir_name: Option<Text>,
    app: Option<Text>,
    lib: Option<Text>,
) -> ManifestView {
    ManifestView {
        name: match name {
            Some(n) => n,
            None => match dir_name {
                Some(d) => d,
                None => "neptune-project"@,
            },
        },
        version: "0.1.0"@,
        description: Some("A Neptune project"@),
        license: Some("MIT"@),
        authors: None,
        repository: None,
        entry: EntryView {
            app: match app {
                Some(a) => Some(a),
                None => Some("src/main.nelua"@),
            },
            lib,
        },
        dependencies: Seq::empty(),
        dev_dependencies: Seq::empty(),
    }
}

/// The manifest that a new project starts with.
pub fn init_manifest(
    name: Option<String>,
    dir_name: Option<String>,
    app: Option<String>,
    lib: Option<String>,
) -> (manifest: Manifest)
    ensures
        manifest.wf(),
        manifest@ == new_manifest(opt_view(name), opt_view(dir_name), opt_view(app), opt_view(lib)),
{
    let name = match name {
        Some(n) => n,
        None => match dir_name {
            Some(d) => d,
            None => String::from_str("neptune-project"),
        },
    };
    let app = match app {
        Some(a) => a,
        None => String::from_str("src/main.nelua"),
    };
    Manifest {
        name,
        version: String::from_str("0.1.0"),
        description: Some(String::from_str("A Neptune project")),
        license: Some(String::from_str("MIT")),
        authors: None,
        repository: None,
        entry: Entry { app: Some(app), lib },
        dependencies: DepMap::new(),
        dev_dependencies: DepMap::new(),
    }
}

/// What is wrong with a project's name.
pub open spec fn name_fault(name: Text) -> Option<ManifestErrorView> {
    if is_blank(name) {
        Some(ManifestErrorView::EmptyName)
    } else if !(forall|i: int| 0 <= i < name.len() ==> is_name_char(#[trigger] name[i])) {
        Some(ManifestErrorView::BadName(name))
    } else {
        None
    }
}

/// Starts a project: makes its manifest, which is refused just where its name
/// is.
pub fn start_project(
    name: Option<String>,
    dir_name: Option<String>,
    app: Option<String>,
    lib: Option<String>,
) -> (started: Result<Manifest, ManifestError>)
    ensures
        ({
            let wanted = new_manifest(opt_view(name), opt_view(dir_name), opt_view(app), opt_view(lib));
            match started {
                Ok(m) => m.wf() && m@ == wanted && name_fault(wanted.name) is None,
                Err(e) => name_fault(wanted.name) == Some(e@),
            }
        }),
{
    let manifest = init_manifest(name, dir_name, app, lib);
    let checked = manifest.validate();
    proof {
        reveal_strlit("0.1.0");
        assert(is_short_version(manifest@.version));
        assert(manifest@.all_deps() =~= Seq::empty());
    }
    match checked {
        Ok(_) => Ok(manifest),
        Err(e) => Err(e),
    }
}

/// A fault among the first dependencies is the fault of them all.
proof fn lemma_deps_fault_prefix(deps: Seq<(Text, DepSpecView)>, req_ok: Seq<bool>, n: int)
    requires
        deps.len() == req_ok.len(),
        0 <= n <= deps.len(),
        deps_fault(deps.take(n), req_ok.take(n)) is Some,
    ensures
        deps_fault(deps, req_ok) == deps_fault(deps.take(n), req_ok.take(n)),
    decreases deps.len(),
{
    if n == deps.len() {
        assert(deps.take(n) =~= deps);
        assert(req_ok.take(n) =~= req_ok);
    } else {
        assert(deps.drop_last().take(n) =~= deps.take(n));
        assert(req_ok.drop_last().take(n) =~= req_ok.take(n));
        lemma_deps_fault_prefix(deps.drop_last(), req_ok.drop_last(), n);
    }
}

/// A manifest is in order just where its name is made of lower-case letters,
/// digits and hyphens, its version reads as one, it has an entry, and nothing
/// is wrong with any of its dependencies.
pub proof fn law_manifest_fault(manifest: ManifestView, version_ok: bool, req_ok: Seq<bool>)
    requires
        req_ok.len() == manifest.all_deps().len(),
    ensures
        manifest.fault(version_ok, req_ok) is None <==> {
            &&& manifest.name.len() > 0
            &&& forall|i: int| 0 <= i < manifest.name.len() ==> is_name_char(#[trigger] manifest.name[i])
            &&& version_ok
            &&& manifest.entry.app is Some || manifest.entry.lib is Some
            &&& forall|i: int|
                0 <= i < manifest.all_deps().len() ==> dep_fault(
                    (#[trigger] manifest.all_deps()[i]).0,
                    manifest.all_deps()[i].1,
                    req_ok[i],
                ) is None
        },
{
    lemma_deps_fault(manifest.all_deps(), req_ok);
    if manifest.name.len() > 0 && is_name_char(manifest.name[0]) {
        assert(!is_white(manifest.name[0]));
        assert(!is_blank(manifest.name));
    }
}

/// Nothing is wrong with dependencies just where nothing is wrong with any.
proof fn lemma_deps_fault(deps: Seq<(Text, DepSpecView)>, req_ok: Seq<bool>)
    requires
        deps.len() == req_ok.len(),
    ensures
        deps_fault(deps, req_ok) is None <==> forall|i: int|
            0 <= i < deps.len() ==> dep_fault((#[trigger] deps[i]).0, deps[i].1, req_ok[i]) is None,
    decreases deps.len(),
{
    if deps.len() > 0 {
        let front = deps.drop_last();
        let front_ok = req_ok.drop_last();
        lemma_deps_fault(front, front_ok);
        if deps_fault(deps, req_ok) is None {
            assert forall|i: int| 0 <= i < deps.len() implies dep_fault(
                (#[trigger] deps[i]).0,
                deps[i].1,
                req_ok[i],
            ) is None by {
                if i < front.len() {
                    assert(dep_fault(front[i].0, front[i].1, front_ok[i]) is None);
                }
            }
        } else if deps_fault(front, front_ok) is Some {
            let i = choose|i: int|
                0 <= i < front.len() && dep_fault((#[trigger] front[i]).0, front[i].1, front_ok[i]) is Some;
            assert(dep_fault(deps[i].0, deps[i].1, req_ok[i]) is Some);
        }
    }
}

/// A dependency with which nothing is wrong names one place to look at most,
/// and one revision there at most.
pub proof fn law_one_source_and_pin(name: Text, dep: DepSpecView, req_ok: bool)
    requires
        dep_fault(name, dep, req_ok) is None,
    ensures
        dep matches DepSpecView::Detailed { git, path, rev, tag, branch, .. } ==> {
            &&& git is None || path is None
            &&& rev is None && tag is None || rev is None && branch is None || tag is None && branch is None
        },
{
}

/// Nothing is wrong with a dependency just where its name is not blank, the
/// requirement that it states, if any, reads as one, it does not name both a
/// repository and a path, and it sets no two of commit, tag and branch.
pub proof fn law_dep_in_order(name: Text, dep: DepSpecView, req_ok: bool)
    ensures
        dep matches DepSpecView::VersionReq(_) ==> (dep_fault(name, dep, req_ok) is None <==> !is_blank(name) && req_ok),
        dep matches DepSpecView::Detailed { version, git, rev, tag, branch, path, .. } ==> (dep_fault(
            name,
            dep,
            req_ok,
        ) is None <==> {
            &&& !is_blank(name)
            &&& version is None || req_ok
            &&& git is None || path is None
            &&& rev is None || tag is None
            &&& rev is None || branch is None
            &&& tag is None || branch is None
        }),
{
}

/// Which fault of a dependency is reported: a blank name before a requirement
/// that does not read, that before two sources, and those before two pins. The
/// report names the dependency, and the requirement as it is written.
pub proof fn law_which_dep_fault(name: Text, dep: DepSpecView, req_ok: bool)
    ensures
        dep_fault(name, dep, req_ok) == Some(ManifestErrorView::EmptyDepName) <==> is_blank(name),
        dep matches DepSpecView::VersionReq(r) ==> (!is_blank(name) && !req_ok ==> dep_fault(name, dep, req_ok) == Some(
            ManifestErrorView::BadRequirement { dep: name, req: r },
        )),
        dep matches DepSpecView::Detailed { version, .. } ==> (version matches Some(r) ==> (!is_blank(name) && !req_ok
            ==> dep_fault(name, dep, req_ok) == Some(ManifestErrorView::BadRequirement { dep: name, req: r }))),
        dep_fault(name, dep, req_ok) matches Some(ManifestErrorView::BadRequirement { .. }) ==> !req_ok,
        dep_fault(name, dep, req_ok) matches Some(ManifestErrorView::GitAndPath(d)) ==> d == name && (
        dep matches DepSpecView::Detailed { git, path, .. } && git is Some && path is Some),
        dep_fault(name, dep, req_ok) matches Some(ManifestErrorView::SeveralPins(d)) ==> d == name && (
        dep matches DepSpecView::Detailed { rev, tag, branch, .. } && (rev is Some && tag is Some || rev is Some
            && branch is Some || tag is Some && branch is Some)),
        dep_fault(name, dep, req_ok) matches Some(fault) ==> (fault is EmptyDepName || fault is BadRequirement
            || fault is GitAndPath || fault is SeveralPins),
{
}

/// The requirement that a dependency states is the one written alone or under
/// `version`, and whether it reads is whether semver reads it.
pub proof fn law_requirement(dep: DepSpecView)
    ensures
        dep matches DepSpecView::VersionReq(v) ==> dep.requirement() == Some(v) && requirement_reads(dep)
            == version_req_parses(v),
        dep matches DepSpecView::Detailed { version, .. } ==> dep.requirement() == version && requirement_reads(dep) == (
        version matches Some(v) ==> version_req_parses(v)),
{
}

/// The fault reported of dependencies is that of the first faulty one: those
/// before it are in order.
pub proof fn law_first_dep_fault(deps: Seq<(Text, DepSpecView)>, req_ok: Seq<bool>, fault: ManifestErrorView)
    requires
        deps.len() == req_ok.len(),
    ensures
        deps_fault(deps, req_ok) == Some(fault) <==> exists|i: int|
            #![trigger deps[i]]
            0 <= i < deps.len() && dep_fault(deps[i].0, deps[i].1, req_ok[i]) == Some(fault) && forall|k: int|
                0 <= k < i ==> dep_fault((#[trigger] deps[k]).0, deps[k].1, req_ok[k]) is None,
    decreases deps.len(),
{
    if deps.len() > 0 {
        let front = deps.drop_last();
        let front_ok = req_ok.drop_last();
        let last = deps.len() - 1;
        law_first_dep_fault(front, front_ok, fault);
        lemma_deps_fault(front, front_ok);
        if deps_fault(deps, req_ok) == Some(fault) {
            if deps_fault(front, front_ok) == Some(fault) {
                let i = choose|i: int|
                    #![trigger front[i]]
                    0 <= i < front.len() && dep_fault(front[i].0, front[i].1, front_ok[i]) == Some(fault) && forall|
                        k: int,
                    |
                        0 <= k < i ==> dep_fault((#[trigger] front[k]).0, front[k].1, front_ok[k]) is None;
                assert(deps[i] == front[i]);
                assert forall|k: int| 0 <= k < i implies dep_fault(
                    (#[trigger] deps[k]).0,
                    deps[k].1,
                    req_ok[k],
                ) is None by {
                    assert(front[k] == deps[k]);
                }
            } else {
                assert(deps[last] == deps.last());
                assert forall|k: int| 0 <= k < last implies dep_fault(
                    (#[trigger] deps[k]).0,
                    deps[k].1,
                    req_ok[k],
                ) is None by {
                    assert(front[k] == deps[k]);
                }
            }
        }
        if exists|i: int|
            #![trigger deps[i]]
            0 <= i < deps.len() && dep_fault(deps[i].0, deps[i].1, req_ok[i]) == Some(fault) && forall|k: int|
                0 <= k < i ==> dep_fault((#[trigger] deps[k]).0, deps[k].1, req_ok[k]) is None {
            let i = choose|i: int|
                #![trigger deps[i]]
                0 <= i < deps.len() && dep_fault(deps[i].0, deps[i].1, req_ok[i]) == Some(fault) && forall|k: int|
                    0 <= k < i ==> dep_fault((#[trigger] deps[k]).0, deps[k].1, req_ok[k]) is None;
            assert forall|k: int| 0 <= k < i && k < front.len() implies dep_fault(
                (#[trigger] front[k]).0,
                front[k].1,
                front_ok[k],
            ) is None by {
                assert(deps[k] == front[k]);
            }
            if i < front.len() {
                assert(front[i] == deps[i]);
            }
        }
    }
}

/// A project's name is good just where it is not empty and every character is
/// a lower-case letter from `a` to `z`, a digit or a hyphen; a name of white
/// space counts as empty, any other bad name is reported as it is.
pub proof fn law_name_rule(name: Text)
    ensures
        name_fault(name) is None <==> name.len() > 0 && forall|i: int|
            0 <= i < name.len() ==> ('a' <= #[trigger] name[i] <= 'z' || '0' <= name[i] <= '9' || name[i] == '-'),
        name_fault(name) == Some(ManifestErrorView::EmptyName) <==> is_blank(name),
        name_fault(name) is Some && !is_blank(name) ==> name_fault(name) == Some(ManifestErrorView::BadName(name)),
{
    if name.len() > 0 && is_name_char(name[0]) {
        assert(!is_white(name[0]));
        assert(!is_blank(name));
    }
}

/// A manifest's faults come in order: its name, its version, its entry, and
/// then its dependencies, those of the package before those of its
/// development.
pub proof fn law_manifest_fault_order(manifest: ManifestView, version_ok: bool, req_ok: Seq<bool>)
    ensures
        name_fault(manifest.name) is Some ==> manifest.fault(version_ok, req_ok) == name_fault(manifest.name),
        name_fault(manifest.name) is None && !version_ok ==> manifest.fault(version_ok, req_ok) == Some(
            ManifestErrorView::BadVersion(manifest.version),
        ),
        name_fault(manifest.name) is None && version_ok && manifest.entry.app is None && manifest.entry.lib is None
            ==> manifest.fault(version_ok, req_ok) == Some(ManifestErrorView::NoEntry),
        name_fault(manifest.name) is None && version_ok && (manifest.entry.app is Some || manifest.entry.lib is Some)
            ==> manifest.fault(version_ok, req_ok) == deps_fault(
            manifest.dependencies + manifest.dev_dependencies,
            req_ok,
        ),
        manifest.requirements_read().len() == manifest.dependencies.len() + manifest.dev_dependencies.len(),
        forall|i: int|
            0 <= i < manifest.requirements_read().len() ==> #[trigger] manifest.requirements_read()[i]
                == requirement_reads((manifest.dependencies + manifest.dev_dependencies)[i].1),
{
}

/// A new project is called by the name given, else by its directory's; it
/// starts at version 0.1.0 with the entries given, the program being
/// `src/main.nelua` unless told otherwise, and with no dependencies.
pub proof fn law_new_manifest(name: Option<Text>, dir_name: Option<Text>, app: Option<Text>, lib: Option<Text>)
    ensures
        ({
            let m = new_manifest(name, dir_name, app, lib);
            &&& name matches Some(n) ==> m.name == n
            &&& name is None ==> (dir_name matches Some(d) ==> m.name == d)
            &&& name is None && dir_name is None ==> m.name == "neptune-project"@
            &&& m.version == "0.1.0"@
            &&& app is Some ==> m.entry.app == app
            &&& app is None ==> m.entry.app == Some("src/main.nelua"@)
            &&& m.entry.lib == lib
            &&& m.dependencies.len() == 0
            &&& m.dev_dependencies.len() == 0
            &&& m.description == Some("A Neptune project"@)
            &&& m.license == Some("MIT"@)
            &&& m.authors is None
            &&& m.repository is None
        }),
{
}

/// The message on a fault tells what is at fault: the name or version, or the
/// dependency and its requirement.
pub proof fn law_manifest_message(fault: ManifestErrorView)
    ensures
        fault matches ManifestErrorView::BadName(name) ==> tells(fault.text(), name),
        fault matches ManifestErrorView::BadVersion(version) ==> tells(fault.text(), version),
        fault matches ManifestErrorView::BadRequirement { dep, req } ==> tells(fault.text(), dep) && tells(
            fault.text(),
            req,
        ),
        fault matches ManifestErrorView::GitAndPath(dep) ==> tells(fault.text(), dep),
        fault matches ManifestErrorView::SeveralPins(dep) ==> tells(fault.text(), dep),
{
    match fault {
        ManifestErrorView::BadName(name) => {
            lemma_tells("manifest.name 只能包含小写字母/数字/连字符(-): "@, name, Seq::empty());
        },
        ManifestErrorView::BadVersion(version) => {
            lemma_tells("manifest.version 不是合法 semver: "@, version, Seq::empty());
        },
        ManifestErrorView::BadRequirement { dep, req } => {
            let middle = " 的版本范围不合法: "@;
            lemma_tells("依赖 "@, dep, middle + req);
            assert("依赖 "@ + dep + (middle + req) =~= fault.text());
            lemma_tells("依赖 "@ + dep + middle, req, Seq::empty());
        },
        ManifestErrorView::GitAndPath(dep) => {
            lemma_tells("依赖 "@, dep, " 不能同时设置 git 与 path"@);
        },
        ManifestErrorView::SeveralPins(dep) => {
            lemma_tells("依赖 "@, dep, " 的 rev/tag/branch 只能设置一个"@);
        },
        _ => {},
    }
}

/// A check of a dependency succeeds just where its name is not blank, its
/// requirement, if it states one, reads, it does not name both a repository and
/// a path, and it sets at most one of commit, tag and branch.
pub proof fn law_check_dep(name: &str, spec: &DepSpec, req_ok: bool, checked: Result<(), ManifestError>)
    requires
        call_ensures(check_dep, (name, spec, req_ok), checked),
    ensures
        *spec matches DepSpec::VersionReq(_) ==> (checked is Ok <==> !is_blank(name@) && req_ok),
        *spec matches DepSpec::Detailed { version, git, rev, tag, branch, path, .. } ==> (checked is Ok <==> {
            &&& !is_blank(name@)
            &&& version is Some ==> req_ok
            &&& !(git is Some && path is Some)
            &&& !(rev is Some && tag is Some)
            &&& !(rev is Some && branch is Some)
            &&& !(tag is Some && branch is Some)
        }),
{
    law_dep_in_order(name@, spec@, req_ok);
}

/// A check of a manifest succeeds just where its name is made of lower-case
/// letters, digits and hyphens, its version reads as one, it has an entry, and
/// each of its dependencies, those for development too, is in order.
pub proof fn law_validate(manifest: &Manifest, checked: Result<(), ManifestError>)
    requires
        call_ensures(Manifest::validate, (manifest,), checked),
    ensures
        checked is Ok <==> {
            let deps = manifest.dependencies@ + manifest.dev_dependencies@;
            let name = manifest.name@;
            &&& name.len() > 0
            &&& forall|i: int|
                0 <= i < name.len() ==> ('a' <= #[trigger] name[i] <= 'z' || '0' <= name[i] <= '9' || name[i] == '-')
            &&& version_parses(manifest.version@)
            &&& manifest.entry.app is Some || manifest.entry.lib is Some
            &&& forall|i: int|
                0 <= i < deps.len() ==> dep_fault(
                    (#[trigger] deps[i]).0,
                    deps[i].1,
                    requirement_reads(deps[i].1),
                ) is None
        },
{
    let m = manifest@;
    let deps = m.dependencies + m.dev_dependencies;
    let req_ok = m.requirements_read();
    law_name_rule(m.name);
    law_manifest_fault_order(m, version_parses(m.version), req_ok);
    lemma_deps_fault(deps, req_ok);
    if deps_fault(deps, req_ok) is None {
        assert forall|i: int| 0 <= i < deps.len() implies dep_fault(
            (#[trigger] deps[i]).0,
            deps[i].1,
            requirement_reads(deps[i].1),
        ) is None by {
            assert(req_ok[i] == requirement_reads(deps[i].1));
        }
    } else {
        assert(!(forall|i: int|
            0 <= i < deps.len() ==> dep_fault((#[trigger] deps[i]).0, deps[i].1, requirement_reads(deps[i].1)) is None)) by {
            if forall|i: int|
                0 <= i < deps.len() ==> dep_fault((#[trigger] deps[i]).0, deps[i].1, requirement_reads(deps[i].1)) is None {
                assert forall|i: int| 0 <= i < deps.len() implies dep_fault(
                    (#[trigger] deps[i]).0,
                    deps[i].1,
                    req_ok[i],
                ) is None by {
                    assert(req_ok[i] == requirement_reads(deps[i].1));
                }
            }
        }
    }
}

/// A dependency gives a version requirement just where it states one that
/// reads, and then that one.
pub proof fn law_as_version_req(dep: &DepSpec, req: Option<VersionReq>)
    requires
        call_ensures(DepSpec::as_version_req, (dep,), req),
    ensures
        *dep matches DepSpec::VersionReq(v) ==> (req is Some <==> version_req_parses(v@)) && (req matches Some(r) ==> r@
            == v@),
        *dep matches DepSpec::Detailed { version, .. } ==> (version matches Some(v) ==> (req is Some
            <==> version_req_parses(v@)) && (req matches Some(r) ==> r@ == v@)),
        *dep matches DepSpec::Detailed { version, .. } ==> (version is None ==> req is None),
{
}

/// Dependencies are kept in the order of their names, each name once.
pub proof fn law_dependencies_by_name(deps: DepMap, i: int, j: int)
    requires
        deps.wf(),
        0 <= i < j < deps@.len(),
    ensures
        text_lt(deps@[i].0, deps@[j].0),
        deps@[i].0 != deps@[j].0,
{
    lemma_text_lt_order(deps@[i].0, deps@[j].0);
}

/// A project is started just where its name, the one given or else that of its
/// directory, is made of lower-case letters, digits and hyphens.
pub proof fn law_start_project(
    name: Option<String>,
    dir_name: Option<String>,
    app: Option<String>,
    lib: Option<String>,
    started: Result<Manifest, ManifestError>,
    chosen: String,
)
    requires
        call_ensures(start_project, (name, dir_name, app, lib), started),
        name == Some(chosen) || name is None && dir_name == Some(chosen),
    ensures
        started is Ok <==> chosen@.len() > 0 && forall|i: int|
            0 <= i < chosen@.len() ==> ('a' <= #[trigger] chosen@[i] <= 'z' || '0' <= chosen@[i] <= '9' || chosen@[i]
                == '-'),
        started matches Ok(manifest) ==> manifest.name@ == chosen@ && manifest.dependencies@.len() == 0
            && manifest.dev_dependencies@.len() == 0,
{
    law_name_rule(chosen@);
}

/// The wording of each message, which users search for.
pub proof fn law_manifest_wording(name: Text, other: Text)
    ensures
        ManifestErrorView::EmptyName.text() == "manifest.name 不能为空"@,
        ManifestErrorView::BadName(name).text() == "manifest.name 只能包含小写字母/数字/连字符(-): "@ + name,
        ManifestErrorView::BadVersion(name).text() == "manifest.version 不是合法 semver: "@ + name,
        ManifestErrorView::NoEntry.text() == "[entry] 至少需要 app 或 lib 之一"@,
        ManifestErrorView::EmptyDepName.text() == "依赖名不能为空"@,
        (ManifestErrorView::BadRequirement { dep: name, req: other }).text() == "依赖 "@ + name
            + " 的版本范围不合法: "@ + other,
        ManifestErrorView::GitAndPath(name).text() == "依赖 "@ + name + " 不能同时设置 git 与 path"@,
        ManifestErrorView::SeveralPins(name).text() == "依赖 "@ + name + " 的 rev/tag/branch 只能设置一个"@,
{
}

} // verus!
