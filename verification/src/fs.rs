//! Decisions about files and directories.
use vstd::prelude::*;

use crate::packages::{installed_dir, installed_dir_view};
use crate::paths::FsPath;
use crate::sort::{
    keys_by, law_sorted_ascends, law_sorted_keeps_elements, lemma_sort_order_exists, sort_by_key, sorted_by, Keyed,
};
use crate::text::{bytes_less, bytes_lt, lemma_bytes_lt_irreflexive, lemma_views_push, views};

verus! {

/// The directory of an installed package, if it is there.
pub fn find_pkg_dir(pkgs_root: &FsPath, pkg_name: &str, pkg_id: &str, exists: bool) -> (dir: Option<FsPath>)
    ensures
        match dir {
            Some(d) => exists && d@ == installed_dir_view(pkgs_root@, pkg_name@, pkg_id@),
            None => !exists,
        },
{
    if exists {
        Some(installed_dir(pkgs_root, pkg_name, pkg_id))
    } else {
        None
    }
}

/// Something in a directory.
#[derive(Debug)]
pub struct Child {
    /// By what the caller knows it.
    pub id: u64,
    /// The bytes of its name.
    pub name: Vec<u8>,
    pub is_dir: bool,
}

#[verifier::ext_equal]
pub struct ChildView {
    pub id: u64,
    pub name: Seq<u8>,
    pub is_dir: bool,
}

impl View for Child {
    type V = ChildView;

    open spec fn view(&self) -> ChildView {
        ChildView { id: self.id, name: self.name@, is_dir: self.is_dir }
    }
}

impl Keyed for Child {
    open spec fn sort_key(&self) -> Seq<u8> {
        self.name@
    }

    fn key_less(&self, other: &Self) -> (less: bool) {
        bytes_less(self.name.as_slice(), other.name.as_slice())
    }
}

/// Those that are directories.
pub open spec fn dirs_among(children: Seq<ChildView>) -> Seq<ChildView> {
    children.filter(|c: ChildView| c.is_dir)
}

/// The directories, in the order of their names.
pub open spec fn child_dirs(children: Seq<ChildView>) -> Seq<ChildView> {
    sorted_by(dirs_among(children), |c: ChildView| c.name)
}

proof fn lemma_children_sorted(children: Seq<Child>)
    ensures
        views(sorted_by(children, |c: Child| c.sort_key())) == sorted_by(views(children), |c: ChildView| c.name),
{
    let keys = keys_by(children, |c: Child| c.sort_key());
    let others = keys_by(views(children), |c: ChildView| c.name);
    assert(keys =~= others);
    lemma_sort_order_exists(keys);
    assert(views(sorted_by(children, |c: Child| c.sort_key())) =~= sorted_by(
        views(children),
        |c: ChildView| c.name,
    ));
}

/// The directories in a directory, in the order of their names.
pub fn list_child_dirs(children: &Vec<Child>) -> (dirs: Vec<Child>)
    ensures
        views(dirs@) == child_dirs(views(children@)),
{
    let ghost all = views(children@);
    let mut dirs: Vec<Child> = Vec::new();
    let mut i: usize = 0;
    while i < children.len()
        invariant
            all == views(children@),
            i <= all.len(),
            views(dirs@) == dirs_among(all.take(i as int)),
        decreases all.len() - i,
    {
        reveal(Seq::filter);
        assert(all.take(i + 1).drop_last() =~= all.take(i as int));
        assert(all[i as int] == children@[i as int]@);
        if children[i].is_dir {
            let copy = Child { id: children[i].id, name: children[i].name.clone(), is_dir: true };
            proof {
                lemma_views_push(dirs@, copy);
            }
            dirs.push(copy);
        }
        i = i + 1;
    }
    assert(all.take(i as int) =~= all);
    proof {
        lemma_children_sorted(dirs@);
    }
    sort_by_key(dirs)
}

/// The directory whose name comes first, if there is one.
pub fn first_child_dir(children: &Vec<Child>) -> (dir: Option<Child>)
    ensures
        match dir {
            Some(d) => child_dirs(views(children@)).len() > 0 && d@ == child_dirs(views(children@))[0],
            None => child_dirs(views(children@)).len() == 0,
        },
{
    let dirs = list_child_dirs(children);
    if dirs.len() == 0 {
        return None;
    }
    assert(views(dirs@)[0] == dirs@[0]@);
    Some(Child { id: dirs[0].id, name: dirs[0].name.clone(), is_dir: dirs[0].is_dir })
}

/// The first directory is one of those in the directory, and none of them has
/// a name that comes before its own.
pub proof fn law_first_child_dir(children: Seq<ChildView>)
    requires
        child_dirs(children).len() > 0,
    ensures
        children.contains(child_dirs(children)[0]),
        child_dirs(children)[0].is_dir,
        forall|c: ChildView|
            #[trigger] children.contains(c) && c.is_dir ==> !bytes_lt(c.name, child_dirs(children)[0].name),
{
    let key = |c: ChildView| c.name;
    let pred = |c: ChildView| c.is_dir;
    let dirs = dirs_among(children);
    let sorted = child_dirs(children);
    law_sorted_keeps_elements(dirs, key);
    law_sorted_ascends(dirs, key);
    assert(sorted.contains(sorted[0]));
    assert(dirs.contains(sorted[0]));
    let d = choose|d: int| 0 <= d < dirs.len() && dirs[d] == sorted[0];
    children.lemma_filter_contains_rev(pred, sorted[0]);
    children.lemma_filter_pred(pred, d);
    assert forall|c: ChildView| #[trigger] children.contains(c) && c.is_dir implies !bytes_lt(
        c.name,
        sorted[0].name,
    ) by {
        let i = choose|i: int| 0 <= i < children.len() && children[i] == c;
        children.lemma_filter_contains(pred, i);
        assert(dirs.contains(c));
        assert(sorted.contains(c));
        let k = choose|k: int| 0 <= k < sorted.len() && sorted[k] == c;
        if k > 0 {
            assert(!bytes_lt(key(sorted[k]), key(sorted[0])));
        } else {
            lemma_bytes_lt_irreflexive(c.name);
        }
    }
}

/// How something is removed.
#[derive(Debug, Clone, Copy, PartialEq, Eq, Structural)]
pub enum Removal {
    /// It is not there.
    Nothing,
    /// With all that is in it.
    Tree,
    /// As a file; a link goes without what it leads to.
    File,
}

/// How something is removed.
pub fn remove_if_exists(exists: bool, is_dir: bool, is_symlink: bool) -> (removal: Removal)
    ensures
        removal == Removal::Nothing <==> !exists,
        removal == Removal::Tree <==> exists && is_dir && !is_symlink,
        removal == Removal::File <==> exists && (!is_dir || is_symlink),
{
    if !exists {
        Removal::Nothing
    } else if is_dir && !is_symlink {
        Removal::Tree
    } else {
        Removal::File
    }
}

/// What is done with something in a directory that is copied.
#[derive(Debug, Clone, Copy, PartialEq, Eq, Structural)]
pub enum CopyAction {
    /// It is copied with all that is in it.
    Tree,
    File,
    /// A link, or something else, is not copied.
    Skip,
}

/// What is done with something in a directory that is copied.
pub fn copy_action(is_dir: bool, is_file: bool) -> (action: CopyAction)
    ensures
        action == CopyAction::Tree <==> is_dir,
        action == CopyAction::File <==> !is_dir && is_file,
        action == CopyAction::Skip <==> !is_dir && !is_file,
{
    if is_dir {
        CopyAction::Tree
    } else if is_file {
        CopyAction::File
    } else {
        CopyAction::Skip
    }
}

/// The ways of linking that a system has.
#[derive(Debug, Clone, Copy, PartialEq, Eq, Structural)]
pub enum Platform {
    /// Symbolic links.
    Unix,
    /// Symbolic links, for which a right is needed, and junctions.
    Windows,
    /// None.
    Other,
}

/// How a directory is made to appear in another place.
#[derive(Debug, Clone, Copy, PartialEq, Eq, Structural)]
pub enum LinkStep {
    Symlink,
    Junction,
    /// It cannot be linked and is to be copied.
    Copy,
}

/// What comes after an attempt.
#[derive(Debug, Clone, Copy, PartialEq, Eq, Structural)]
pub enum LinkNext {
    /// It is linked.
    Linked,
    /// Another way is to be tried.
    Attempt(LinkStep),
    /// The failure is to be reported.
    Failed,
}

/// The first way to be tried.
pub fn first_link(platform: Platform) -> (step: LinkStep)
    ensures
        step == (if platform == Platform::Other {
            LinkStep::Copy
        } else {
            LinkStep::Symlink
        }),
{
    match platform {
        Platform::Other => LinkStep::Copy,
        _ => LinkStep::Symlink,
    }
}

/// What comes after an attempt: where links need a right, a junction is tried
/// next, and then a copy.
pub fn next_link(platform: Platform, step: LinkStep, linked: bool) -> (next: LinkNext)
    requires
        step != LinkStep::Copy,
    ensures
        next == (if linked {
            LinkNext::Linked
        } else if step == LinkStep::Junction {
            LinkNext::Attempt(LinkStep::Copy)
        } else if platform == Platform::Windows {
            LinkNext::Attempt(LinkStep::Junction)
        } else {
            LinkNext::Failed
        }),
{
    if linked {
        return LinkNext::Linked;
    }
    match step {
        LinkStep::Junction => LinkNext::Attempt(LinkStep::Copy),
        _ => match platform {
            Platform::Windows => LinkNext::Attempt(LinkStep::Junction),
            _ => LinkNext::Failed,
        },
    }
}

/// The directories that are listed are those among what is in a directory, all
/// of them and nothing else, in the order of their names.
pub proof fn law_child_dirs(children: Seq<ChildView>, c: ChildView)
    ensures
        child_dirs(children).contains(c) <==> children.contains(c) && c.is_dir,
        child_dirs(children).len() <= children.len(),
        forall|i: int, j: int|
            0 <= i < j < child_dirs(children).len() ==> !bytes_lt(
                (#[trigger] child_dirs(children)[j]).name,
                (#[trigger] child_dirs(children)[i]).name,
            ),
{
    let key = |c: ChildView| c.name;
    let pred = |c: ChildView| c.is_dir;
    let dirs = dirs_among(children);
    let sorted = child_dirs(children);
    law_sorted_keeps_elements(dirs, key);
    law_sorted_ascends(dirs, key);
    children.lemma_filter_len(pred);
    assert(sorted.contains(c) <==> dirs.contains(c));
    if dirs.contains(c) {
        let d = choose|d: int| 0 <= d < dirs.len() && dirs[d] == c;
        children.lemma_filter_contains_rev(pred, c);
        children.lemma_filter_pred(pred, d);
    }
    if children.contains(c) && c.is_dir {
        let i = choose|i: int| 0 <= i < children.len() && children[i] == c;
        children.lemma_filter_contains(pred, i);
    }
    assert forall|i: int, j: int| 0 <= i < j < sorted.len() implies !bytes_lt(
        (#[trigger] sorted[j]).name,
        (#[trigger] sorted[i]).name,
    ) by {
        assert(!bytes_lt(key(sorted_by(dirs, key)[j]), key(sorted_by(dirs, key)[i])));
    }
}

/// Where a directory is linked: by a symbolic link where there are links. One
/// that fails is followed by a junction and then by a copy where links need a
/// right, and reported elsewhere. An attempt that is well ends it.
pub proof fn law_linking(platform: Platform, step: LinkStep, linked: bool, first: LinkStep, next: LinkNext)
    requires
        step != LinkStep::Copy,
        call_ensures(first_link, (platform,), first),
        call_ensures(next_link, (platform, step, linked), next),
    ensures
        platform == Platform::Other <==> first == LinkStep::Copy,
        platform != Platform::Other <==> first == LinkStep::Symlink,
        linked <==> next == LinkNext::Linked,
        !linked && step == LinkStep::Symlink && platform == Platform::Windows ==> next == LinkNext::Attempt(
            LinkStep::Junction,
        ),
        !linked && step == LinkStep::Symlink && platform != Platform::Windows ==> next == LinkNext::Failed,
        !linked && step == LinkStep::Junction ==> next == LinkNext::Attempt(LinkStep::Copy),
{
}

/// Nothing is removed that is not there; a directory goes with all that is in
/// it, but a link, even to a directory, goes alone.
pub proof fn law_removal(exists: bool, is_dir: bool, is_symlink: bool, removal: Removal)
    requires
        call_ensures(remove_if_exists, (exists, is_dir, is_symlink), removal),
    ensures
        !exists ==> removal == Removal::Nothing,
        exists && is_symlink ==> removal == Removal::File,
        exists && !is_symlink && is_dir ==> removal == Removal::Tree,
        exists && !is_dir ==> removal == Removal::File,
{
}

/// Directories are copied as trees and files as files; anything else is left.
pub proof fn law_copying(is_dir: bool, is_file: bool, action: CopyAction)
    requires
        call_ensures(copy_action, (is_dir, is_file), action),
    ensures
        is_dir ==> action == CopyAction::Tree,
        !is_dir && is_file ==> action == CopyAction::File,
        !is_dir && !is_file ==> action == CopyAction::Skip,
{
}

/// An installed package is found just where it is there, in the directory named
/// by its name and its id.
pub proof fn law_find_pkg_dir(pkgs_root: &FsPath, pkg_name: &str, pkg_id: &str, exists: bool, dir: Option<FsPath>)
    requires
        call_ensures(find_pkg_dir, (pkgs_root, pkg_name, pkg_id, exists), dir),
    ensures
        dir is Some <==> exists,
        dir matches Some(d) ==> d@.base == pkgs_root@.base && d@.parts == pkgs_root@.parts + seq![pkg_name@, pkg_id@],
{
    if let Some(d) = dir {
        assert(d@.parts =~= pkgs_root@.parts + seq![pkg_name@, pkg_id@]);
    }
}

} // verus!
