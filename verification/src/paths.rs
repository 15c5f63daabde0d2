//! Where a project keeps its files.
use vstd::prelude::*;
use vstd::string::*;

use crate::text::{clone_texts, lemma_views_push, views, Text};

verus! {

pub const MANIFEST_FILE: &'static str = "neptune.toml";

pub const LOCK_FILE: &'static str = "neptune.lock";

pub const PROJECT_DIR: &'static str = ".neptune";

pub const MODULES_DIR: &'static str = "nelua_modules";

pub const PATH_BOOTSTRAP_FILE: &'static str = "neptune_path.lua";

/// A file-system path: a starting path and what is joined to it, one part
/// after another. How parts are joined is the platform's affair.
#[derive(Debug)]
pub struct FsPath {
    pub base: String,
    pub parts: Vec<String>,
}

#[verifier::ext_equal]
pub struct FsPathView {
    pub base: Text,
    pub parts: Seq<Text>,
}

impl View for FsPath {
    type V = FsPathView;

    open spec fn view(&self) -> FsPathView {
        FsPathView { base: self.base@, parts: views(self.parts@) }
    }
}

impl FsPathView {
    /// The path with one more part joined to it.
    pub open spec fn join(self, part: Text) -> FsPathView {
        FsPathView { base: self.base, parts: self.parts.push(part) }
    }
}

/// The path that is just its starting path.
pub open spec fn bare_path(base: Text) -> FsPathView {
    FsPathView { base, parts: Seq::empty() }
}

impl FsPath {
    pub fn new(base: &str) -> (path: FsPath)
        ensures
            path@ == bare_path(base@),
    {
        let path = FsPath { base: String::from_str(base), parts: Vec::new() };
        assert(path@.parts =~= Seq::empty());
        path
    }

    pub fn join(&self, part: &str) -> (path: FsPath)
        ensures
            path@ == self@.join(part@),
    {
        let mut parts: Vec<String> = clone_texts(&self.parts);
        let part = String::from_str(part);
        proof {
            lemma_views_push(parts@, part);
        }
        parts.push(part);
        FsPath { base: self.base.clone(), parts }
    }
}

impl Clone for FsPath {
    fn clone(&self) -> (copy: FsPath)
        ensures
            copy@ == self@,
    {
        FsPath { base: self.base.clone(), parts: clone_texts(&self.parts) }
    }
}

pub open spec fn project_dir_view(root: FsPathView) -> FsPathView {
    root.join(PROJECT_DIR@)
}

/// The project's own directory, `.neptune`.
pub fn project_dir(root: &FsPath) -> (dir: FsPath)
    ensures
        dir@ == project_dir_view(root@),
{
    root.join(PROJECT_DIR)
}

pub open spec fn pkgs_dir_view(root: FsPathView) -> FsPathView {
    project_dir_view(root).join("pkgs"@)
}

/// Where packages are installed: `.neptune/pkgs`.
pub fn pkgs_dir(root: &FsPath) -> (dir: FsPath)
    ensures
        dir@ == pkgs_dir_view(root@),
{
    project_dir(root).join("pkgs")
}

/// `.neptune/bin`.
pub fn bin_dir(root: &FsPath) -> (dir: FsPath)
    ensures
        dir@ == project_dir_view(root@).join("bin"@),
{
    project_dir(root).join("bin")
}

pub open spec fn modules_dir_view(root: FsPathView) -> FsPathView {
    root.join(MODULES_DIR@)
}

/// Where modules are looked up: `nelua_modules`.
pub fn modules_dir(root: &FsPath) -> (dir: FsPath)
    ensures
        dir@ == modules_dir_view(root@),
{
    root.join(MODULES_DIR)
}

/// The file that sets up the module search path: `neptune_path.lua`.
pub fn path_bootstrap_file(root: &FsPath) -> (file: FsPath)
    ensures
        file@ == root@.join(PATH_BOOTSTRAP_FILE@),
{
    root.join(PATH_BOOTSTRAP_FILE)
}

pub open spec fn git_cache_dir_view(root: FsPathView) -> FsPathView {
    project_dir_view(root).join("cache"@).join("git"@)
}

/// Where Git repositories are cached: `.neptune/cache/git`.
pub fn git_cache_dir(root: &FsPath) -> (dir: FsPath)
    ensures
        dir@ == git_cache_dir_view(root@),
{
    project_dir(root).join("cache").join("git")
}

/// The project's files have their own places below its directory: installed
/// packages in `.neptune/pkgs`, repositories in `.neptune/cache/git`, modules in
/// `nelua_modules`.
pub proof fn law_project_layout(root: FsPathView)
    ensures
        project_dir_view(root) == (FsPathView { base: root.base, parts: root.parts + seq![".neptune"@] }),
        pkgs_dir_view(root) == (FsPathView { base: root.base, parts: root.parts + seq![".neptune"@, "pkgs"@] }),
        git_cache_dir_view(root) == (FsPathView {
            base: root.base,
            parts: root.parts + seq![".neptune"@, "cache"@, "git"@],
        }),
        modules_dir_view(root) == (FsPathView { base: root.base, parts: root.parts + seq!["nelua_modules"@] }),
        MANIFEST_FILE@ == "neptune.toml"@,
        LOCK_FILE@ == "neptune.lock"@,
        PATH_BOOTSTRAP_FILE@ == "neptune_path.lua"@,
{
    assert(project_dir_view(root).parts =~= root.parts + seq![".neptune"@]);
    assert(pkgs_dir_view(root).parts =~= root.parts + seq![".neptune"@, "pkgs"@]);
    assert(git_cache_dir_view(root).parts =~= root.parts + seq![".neptune"@, "cache"@, "git"@]);
    assert(modules_dir_view(root).parts =~= root.parts + seq!["nelua_modules"@]);
}

/// Joining a part keeps the path and adds the part at its end, so paths agree
/// just where their beginnings and their last parts do.
pub proof fn law_join(p: FsPathView, q: FsPathView, x: Text, y: Text)
    ensures
        p.join(x) == q.join(y) <==> p == q && x == y,
        p.join(x).base == p.base,
        p.join(x).parts.last() == x,
        p.join(x).parts.drop_last() == p.parts,
        bare_path(x).base == x,
        bare_path(x).parts.len() == 0,
{
    assert(p.join(x).parts.drop_last() =~= p.parts);
    assert(q.join(y).parts.drop_last() =~= q.parts);
    if p.join(x) == q.join(y) {
        assert(p =~= q);
        assert(x == p.join(x).parts.last() && y == q.join(y).parts.last());
    }
}

} // verus!
