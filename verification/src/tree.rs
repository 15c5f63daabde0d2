//! The dependency tree of a lockfile, as it is printed.
use vstd::prelude::*;
use vstd::string::*;
use vstd::utf8::*;

use crate::graph::{
    build_order, is_settled, lemma_last_position, lemma_position, lemma_settles_more, position, settles,
};
use crate::install::{locked_packages, lockfile_of};
use crate::lockfile::{LockedPackage, LockedPackageView, LockedSource, LockedSourceView, Lockfile};
use crate::order::{deep_texts, is_dependency_order, lemma_found_deps, link, marks, name_graph};
use crate::packages::SHORT_HASH;
use crate::resolver::{
    git_text, locked_source, node_deps, node_names, write_git, ResolvedNodeView, ResolvedSourceView,
};
use crate::sort::law_sorted_keeps_elements;
use crate::text::{
    can_cut, cut, cut_text, decimal, is_cuttable, law_ascii_cut, lemma_views_push, same_text, views, write_decimal, Text,
};

verus! {

/// Where a package comes from, as the tree shows it.
pub open spec fn source_info(source: LockedSourceView) -> Text {
    match source {
        LockedSourceView::Path { path } => "path:"@ + path,
        LockedSourceView::Git { url, rev } => git_text(url, cut(rev, SHORT_HASH as nat)),
        LockedSourceView::Registry { url, .. } => "registry:"@ + url,
    }
}

/// Whether a source can be shown: a revision must be fit to be cut.
pub open spec fn can_show(source: LockedSourceView) -> bool {
    source matches LockedSourceView::Git { rev, .. } ==> can_cut(rev, SHORT_HASH as nat)
}

fn is_showable(source: &LockedSource) -> (is: bool)
    ensures
        is == can_show(source@),
{
    match source {
        LockedSource::Git { rev, .. } => is_cuttable(rev.as_str(), SHORT_HASH),
        _ => true,
    }
}

/// Where a package comes from, as the tree shows it.
pub fn show_source(source: &LockedSource) -> (text: String)
    requires
        can_show(source@),
    ensures
        text@ == source_info(source@),
{
    match source {
        LockedSource::Path { path } => String::from_str("path:").concat(path.as_str()),
        LockedSource::Git { url, rev } => write_git(url.as_str(), cut_text(rev.as_str(), SHORT_HASH).as_str()),
        LockedSource::Registry { url, .. } => String::from_str("registry:").concat(url.as_str()),
    }
}

/// The indentation at a depth: two spaces for each level.
pub open spec fn indent(depth: nat) -> Text
    decreases depth,
{
    if depth == 0 {
        Seq::empty()
    } else {
        indent((depth - 1) as nat) + "  "@
    }
}

/// The line that shows a package.
pub open spec fn package_line(package: LockedPackageView, depth: nat) -> Text {
    indent(depth) + package.name + "@"@ + package.version + " ["@ + source_info(package.source) + "]"@
}

/// The line that shows a dependency that is not in the lockfile.
pub open spec fn missing_line(name: Text, version: Text, depth: nat) -> Text {
    indent(depth) + name + "@"@ + version + " [未安装]"@
}

/// The names of packages.
pub open spec fn locked_names(packages: Seq<LockedPackageView>) -> Seq<Text> {
    Seq::new(packages.len(), |i: int| packages[i].name)
}

/// The names that packages depend on.
pub open spec fn locked_deps(packages: Seq<LockedPackageView>) -> Seq<Seq<Text>> {
    Seq::new(
        packages.len(),
        |i: int| Seq::new(packages[i].dependencies.len(), |k: int| packages[i].dependencies[k].name),
    )
}

/// Which package leads to which: a dependency leads to the first package of
/// its name.
pub open spec fn locked_graph(packages: Seq<LockedPackageView>) -> Seq<Seq<usize>> {
    name_graph(locked_names(packages), locked_deps(packages))
}

/// Whether the tree below a package ends: it meets no circle of dependencies.
pub open spec fn tree_ends(packages: Seq<LockedPackageView>, v: int) -> bool {
    is_settled(locked_graph(packages), v as usize)
}

/// The first `k` levels of the tree below package `v`, line by line.
pub open spec fn upper_tree(packages: Seq<LockedPackageView>, v: int, depth: nat, k: nat) -> Seq<Text>
    decreases k, 0nat,
{
    if k == 0 {
        Seq::empty()
    } else {
        seq![package_line(packages[v], depth)] + upper_branches(
            packages,
            v,
            packages[v].dependencies.len(),
            depth,
            (k - 1) as nat,
        )
    }
}

/// The first `k` levels of the trees of the first `n` dependencies of package
/// `v`.
pub open spec fn upper_branches(packages: Seq<LockedPackageView>, v: int, n: nat, depth: nat, k: nat) -> Seq<Text>
    decreases k, n + 1,
{
    if n == 0 {
        Seq::empty()
    } else {
        let dep = packages[v].dependencies[n - 1];
        let p = position(locked_names(packages), dep.name);
        upper_branches(packages, v, (n - 1) as nat, depth, k) + if p >= 0 {
            upper_tree(packages, p, depth + 1, k)
        } else {
            seq![missing_line(dep.name, dep.version, depth + 1)]
        }
    }
}

/// The tree below package `v`, line by line, where it ends.
pub open spec fn package_tree(packages: Seq<LockedPackageView>, v: int, depth: nat) -> Seq<Text> {
    upper_tree(packages, v, depth, height(locked_graph(packages), v as usize))
}

/// A number of levels within which every chain of dependencies from `v` ends.
pub open spec fn height(graph: Seq<Seq<usize>>, v: usize) -> nat {
    choose|k: nat| settles(graph, v, k)
}

/// The trees of the first `n` dependencies of package `v`.
pub open spec fn branches(packages: Seq<LockedPackageView>, v: int, n: nat, depth: nat) -> Seq<Text>
    decreases n,
{
    if n == 0 {
        Seq::empty()
    } else {
        let dep = packages[v].dependencies[n - 1];
        let p = position(locked_names(packages), dep.name);
        branches(packages, v, (n - 1) as nat, depth) + if p >= 0 {
            package_tree(packages, p, depth + 1)
        } else {
            seq![missing_line(dep.name, dep.version, depth + 1)]
        }
    }
}

/// The package that a dependency leads to settles one level earlier.
proof fn lemma_branch_settles(packages: Seq<LockedPackageView>, v: int, n: int, k: nat)
    requires
        packages.len() <= usize::MAX,
        0 <= v < packages.len(),
        settles(locked_graph(packages), v as usize, k),
        0 <= n < packages[v].dependencies.len(),
    ensures
        k > 0,
        ({
            let p = position(locked_names(packages), packages[v].dependencies[n].name);
            &&& -1 <= p < packages.len()
            &&& p >= 0 ==> settles(locked_graph(packages), p as usize, (k - 1) as nat)
        }),
{
    let names = locked_names(packages);
    let ds = locked_deps(packages)[v];
    let graph = locked_graph(packages);
    let p = position(names, ds[n]);
    lemma_position(names, ds[n]);
    lemma_found_deps(names, ds);
    if p >= 0 {
        assert(graph[v].contains(p as usize));
        let i = choose|i: int| 0 <= i < graph[v].len() && graph[v][i] == p as usize;
        assert(settles(graph, graph[v][i], (k - 1) as nat));
    }
}

/// Where the tree ends, deeper levels add nothing.
proof fn lemma_tree_whole(packages: Seq<LockedPackageView>, v: int, depth: nat, k: nat, m: nat)
    requires
        packages.len() <= usize::MAX,
        0 <= v < packages.len(),
        settles(locked_graph(packages), v as usize, k),
        settles(locked_graph(packages), v as usize, m),
    ensures
        upper_tree(packages, v, depth, k) == upper_tree(packages, v, depth, m),
    decreases k, 0nat,
{
    lemma_branches_whole(packages, v, packages[v].dependencies.len(), depth, k, m);
}

proof fn lemma_branches_whole(packages: Seq<LockedPackageView>, v: int, n: nat, depth: nat, k: nat, m: nat)
    requires
        packages.len() <= usize::MAX,
        0 <= v < packages.len(),
        settles(locked_graph(packages), v as usize, k),
        settles(locked_graph(packages), v as usize, m),
        n <= packages[v].dependencies.len(),
    ensures
        upper_branches(packages, v, n, depth, (k - 1) as nat) == upper_branches(packages, v, n, depth, (m - 1) as nat),
    decreases (k - 1) as nat, n + 1,
{
    if n > 0 {
        lemma_branches_whole(packages, v, (n - 1) as nat, depth, k, m);
        lemma_branch_settles(packages, v, n - 1, k);
        lemma_branch_settles(packages, v, n - 1, m);
        let p = position(locked_names(packages), packages[v].dependencies[n - 1].name);
        if p >= 0 {
            lemma_tree_whole(packages, p, depth + 1, (k - 1) as nat, (m - 1) as nat);
        }
    }
}

/// The tree below a package is its line, and then, one level deeper, the tree
/// of each of its dependencies, or a line for one that is not in the
/// lockfile.
pub proof fn law_tree_unfolds(packages: Seq<LockedPackageView>, v: int, depth: nat)
    requires
        packages.len() <= usize::MAX,
        0 <= v < packages.len(),
        tree_ends(packages, v),
    ensures
        package_tree(packages, v, depth) == seq![package_line(packages[v], depth)] + branches(
            packages,
            v,
            packages[v].dependencies.len(),
            depth,
        ),
{
    let k = height(locked_graph(packages), v as usize);
    lemma_branches(packages, v, packages[v].dependencies.len(), depth, k);
}

proof fn lemma_branches(packages: Seq<LockedPackageView>, v: int, n: nat, depth: nat, k: nat)
    requires
        packages.len() <= usize::MAX,
        0 <= v < packages.len(),
        settles(locked_graph(packages), v as usize, k),
        n <= packages[v].dependencies.len(),
    ensures
        upper_branches(packages, v, n, depth, (k - 1) as nat) == branches(packages, v, n, depth),
    decreases n,
{
    if n > 0 {
        lemma_branches(packages, v, (n - 1) as nat, depth, k);
        lemma_branch_settles(packages, v, n - 1, k);
        let p = position(locked_names(packages), packages[v].dependencies[n - 1].name);
        if p >= 0 {
            let m = height(locked_graph(packages), p as usize);
            lemma_tree_whole(packages, p, depth + 1, (k - 1) as nat, m);
        }
    }
}

/// The first package of that name.
fn find_package(packages: &Vec<LockedPackage>, name: &str) -> (found: Option<usize>)
    ensures
        match found {
            Some(i) => i == position(locked_names(views(packages@)), name@),
            None => position(locked_names(views(packages@)), name@) == -1,
        },
{
    let ghost names = locked_names(views(packages@));
    let mut i: usize = 0;
    proof {
        lemma_position(names, name@);
    }
    while i < packages.len()
        invariant
            names == locked_names(views(packages@)),
            i <= packages@.len(),
            forall|k: int| 0 <= k < i ==> names[k] != name@,
        decreases packages.len() - i,
    {
        assert(names[i as int] == packages@[i as int].name@);
        if same_text(packages[i].name.as_str(), name) {
            proof {
                lemma_position(names, name@);
            }
            return Some(i);
        }
        i = i + 1;
    }
    None
}

/// The line that shows a package, behind `lead`.
fn show_package(lead: &str, package: &LockedPackage) -> (line: String)
    requires
        can_show(package@.source),
    ensures
        line@ == lead@ + package@.name + "@"@ + package@.version + " ["@ + source_info(package@.source) + "]"@,
{
    String::from_str(lead).concat(package.name.as_str()).concat("@").concat(package.version.as_str()).concat(
        " [",
    ).concat(show_source(&package.source).as_str()).concat("]")
}

/// Whether every package can be shown.
pub open spec fn all_show(packages: Seq<LockedPackageView>) -> bool {
    forall|i: int| 0 <= i < packages.len() ==> can_show((#[trigger] packages[i]).source)
}

/// Whether the packages in the first `k` levels of the tree below package `v`
/// can be shown.
pub open spec fn upper_shows(packages: Seq<LockedPackageView>, v: int, k: nat) -> bool
    decreases k,
{
    k > 0 ==> {
        &&& can_show(packages[v].source)
        &&& forall|n: int|
            0 <= n < packages[v].dependencies.len() && leads_to(packages, #[trigger] packages[v].dependencies[n].name) >= 0
                ==> upper_shows(packages, leads_to(packages, packages[v].dependencies[n].name), (k - 1) as nat)
    }
}

/// The first package of that name, or -1.
pub open spec fn leads_to(packages: Seq<LockedPackageView>, name: Text) -> int {
    position(locked_names(packages), name)
}

/// Whether the packages in the tree below package `v`, where it ends, can be
/// shown.
pub open spec fn tree_shows(packages: Seq<LockedPackageView>, v: int) -> bool {
    upper_shows(packages, v, height(locked_graph(packages), v as usize))
}

/// Where every package can be shown, so can those in a tree.
pub proof fn lemma_all_show(packages: Seq<LockedPackageView>, v: int, k: nat)
    requires
        all_show(packages),
        0 <= v < packages.len(),
    ensures
        upper_shows(packages, v, k),
    decreases k,
{
    if k > 0 {
        assert forall|n: int|
            0 <= n < packages[v].dependencies.len() && leads_to(packages, #[trigger] packages[v].dependencies[n].name)
                >= 0 implies upper_shows(
            packages,
            leads_to(packages, packages[v].dependencies[n].name),
            (k - 1) as nat,
        ) by {
            let name = packages[v].dependencies[n].name;
            lemma_position(locked_names(packages), name);
            lemma_all_show(packages, leads_to(packages, name), (k - 1) as nat);
        }
    }
}

/// Adds the tree below package `v` to the lines.
fn grow_tree(
    packages: &Vec<LockedPackage>,
    v: usize,
    lead: &str,
    lines: &mut Vec<String>,
    Ghost(depth): Ghost<nat>,
    Ghost(k): Ghost<nat>,
)
    requires
        v < packages@.len(),
        upper_shows(views(packages@), v as int, k),
        settles(locked_graph(views(packages@)), v, k),
        lead@ == indent(depth),
    ensures
        views(final(lines)@) == views(old(lines)@) + upper_tree(views(packages@), v as int, depth, k),
    decreases k,
{
    let ghost all = views(packages@);
    let ghost before = views(lines@);
    let package = &packages[v];
    assert(all[v as int] == package@);
    assert(all.len() == packages.len());
    let line = show_package(lead, package);
    proof {
        lemma_views_push(lines@, line);
    }
    lines.push(line);
    let deeper = String::from_str(lead).concat("  ");
    assert(deeper@ == indent(depth + 1));
    let mut i: usize = 0;
    assert(views(lines@) =~= before + seq![package_line(all[v as int], depth)] + upper_branches(
        all,
        v as int,
        0,
        depth,
        (k - 1) as nat,
    ));
    while i < package.dependencies.len()
        invariant
            all == views(packages@),
            all.len() <= usize::MAX,
            v < packages@.len(),
            package == packages@[v as int],
            all[v as int] == package@,
            upper_shows(all, v as int, k),
            settles(locked_graph(all), v, k),
            deeper@ == indent(depth + 1),
            i <= package.dependencies@.len(),
            views(lines@) == before + seq![package_line(all[v as int], depth)] + upper_branches(
                all,
                v as int,
                i as nat,
                depth,
                (k - 1) as nat,
            ),
        decreases package.dependencies.len() - i,
    {
        let dep = &package.dependencies[i];
        let ghost so_far = views(lines@);
        proof {
            assert(all[v as int].dependencies[i as int] == dep@);
            lemma_branch_settles(all, v as int, i as int, k);
        }
        match find_package(packages, dep.name.as_str()) {
            Some(p) => {
                grow_tree(packages, p, deeper.as_str(), lines, Ghost(depth + 1), Ghost((k - 1) as nat));
            },
            None => {
                let line = deeper.clone().concat(dep.name.as_str()).concat("@").concat(dep.version.as_str()).concat(
                    " [未安装]",
                );
                proof {
                    lemma_views_push(lines@, line);
                }
                lines.push(line);
                assert(views(lines@) =~= so_far + seq![missing_line(dep.name@, dep.version@, depth + 1)]);
            },
        }
        i = i + 1;
        assert(views(lines@) =~= before + seq![package_line(all[v as int], depth)] + upper_branches(
            all,
            v as int,
            i as nat,
            depth,
            (k - 1) as nat,
        ));
    }
    assert(views(lines@) =~= before + upper_tree(all, v as int, depth, k));
}

/// The indentation at a depth.
fn indent_to(depth: usize) -> (lead: String)
    ensures
        lead@ == indent(depth as nat),
{
    let mut lead = String::new();
    let mut i: usize = 0;
    while i < depth
        invariant
            i <= depth,
            lead@ == indent(i as nat),
        decreases depth - i,
    {
        lead.append("  ");
        i = i + 1;
    }
    lead
}

/// The tree below package `v`, line by line.
pub fn print_pkg_tree(packages: &Vec<LockedPackage>, v: usize, depth: usize) -> (lines: Vec<String>)
    requires
        v < packages@.len(),
        tree_ends(views(packages@), v as int),
        tree_shows(views(packages@), v as int),
    ensures
        views(lines@) == package_tree(views(packages@), v as int, depth as nat),
{
    let lead = indent_to(depth);
    let mut lines: Vec<String> = Vec::new();
    let ghost k = height(locked_graph(views(packages@)), v);
    assert(settles(locked_graph(views(packages@)), v, k));
    grow_tree(packages, v, lead.as_str(), &mut lines, Ghost(depth as nat), Ghost(k));
    assert(views(lines@) =~= package_tree(views(packages@), v as int, depth as nat));
    lines
}

/// Whether some package depends on that name.
pub open spec fn is_depended_on(packages: Seq<LockedPackageView>, name: Text) -> bool {
    exists|i: int, k: int|
        0 <= i < packages.len() && 0 <= k < packages[i].dependencies.len() && (#[trigger] packages[i].dependencies[k]).name
            == name
}

fn depended_on(packages: &Vec<LockedPackage>, name: &str) -> (is: bool)
    ensures
        is == is_depended_on(views(packages@), name@),
{
    let ghost all = views(packages@);
    let mut i: usize = 0;
    while i < packages.len()
        invariant
            all == views(packages@),
            i <= all.len(),
            forall|a: int, k: int|
                0 <= a < i && 0 <= k < all[a].dependencies.len() ==> (#[trigger] all[a].dependencies[k]).name != name@,
        decreases all.len() - i,
    {
        let package = &packages[i];
        assert(all[i as int] == package@);
        let mut j: usize = 0;
        while j < package.dependencies.len()
            invariant
                all == views(packages@),
                i < all.len(),
                all[i as int] == package@,
                j <= package.dependencies@.len(),
                forall|k: int| 0 <= k < j ==> (#[trigger] all[i as int].dependencies[k]).name != name@,
            decreases package.dependencies.len() - j,
        {
            assert(all[i as int].dependencies[j as int] == package.dependencies@[j as int]@);
            if same_text(package.dependencies[j].name.as_str(), name) {
                return true;
            }
            j = j + 1;
        }
        i = i + 1;
    }
    false
}

/// Whether a package is on top: no package depends on its name.
pub open spec fn is_on_top(packages: Seq<LockedPackageView>, v: int) -> bool {
    !is_depended_on(packages, packages[v].name)
}

/// How many of the first `n` packages others depend on.
pub open spec fn indirect_count(packages: Seq<LockedPackageView>, n: nat) -> nat
    decreases n,
{
    if n == 0 {
        0
    } else {
        indirect_count(packages, (n - 1) as nat) + if is_on_top(packages, n - 1) {
            0nat
        } else {
            1nat
        }
    }
}

/// The trees below those of the first `n` packages that are on top.
pub open spec fn top_trees(packages: Seq<LockedPackageView>, n: nat) -> Seq<Text>
    decreases n,
{
    if n == 0 {
        Seq::empty()
    } else {
        let front = top_trees(packages, (n - 1) as nat);
        if is_on_top(packages, n - 1) {
            front + package_tree(packages, n - 1, 1)
        } else {
            front
        }
    }
}

/// The lines of those of the first `n` packages that others depend on.
pub open spec fn indirect_lines(packages: Seq<LockedPackageView>, n: nat) -> Seq<Text>
    decreases n,
{
    if n == 0 {
        Seq::empty()
    } else {
        let front = indirect_lines(packages, (n - 1) as nat);
        if is_on_top(packages, n - 1) {
            front
        } else {
            front.push(package_line(packages[n - 1], 1))
        }
    }
}

/// The dependency tree of a lockfile: the trees of the packages on top, then
/// the list of all others.
pub open spec fn tree_report(packages: Seq<LockedPackageView>) -> Seq<Text> {
    let n = packages.len();
    let indirect = indirect_count(packages, n);
    let head = seq!["依赖树（共 "@ + decimal(n) + " 个包）："@, ""@];
    let top = if indirect < n {
        seq!["直接依赖："@] + top_trees(packages, n)
    } else {
        Seq::empty()
    };
    let rest = if indirect > 0 {
        seq![""@, "间接依赖（"@ + decimal(indirect) + "个）："@] + indirect_lines(packages, n)
    } else {
        Seq::empty()
    };
    head + top + rest
}

/// Whether the tree of a lockfile can be printed: every package can be shown,
/// and no tree below a package on top meets a circle of dependencies.
pub open spec fn can_report(packages: Seq<LockedPackageView>) -> bool {
    &&& all_show(packages)
    &&& forall|v: int| 0 <= v < packages.len() && is_on_top(packages, v) ==> #[trigger] tree_ends(packages, v)
}

/// The names and the dependencies of packages.
fn names_and_deps(packages: &Vec<LockedPackage>) -> (r: (Vec<String>, Vec<Vec<String>>))
    ensures
        views(r.0@) == locked_names(views(packages@)),
        deep_texts(r.1@) == locked_deps(views(packages@)),
        r.0@.len() == packages@.len(),
        r.1@.len() == packages@.len(),
{
    let ghost all = views(packages@);
    let mut names: Vec<String> = Vec::new();
    let mut deps: Vec<Vec<String>> = Vec::new();
    let mut i: usize = 0;
    while i < packages.len()
        invariant
            all == views(packages@),
            i <= all.len(),
            names@.len() == i,
            deps@.len() == i,
            forall|k: int| 0 <= k < i ==> (#[trigger] names@[k])@ == all[k].name,
            forall|k: int| 0 <= k < i ==> views((#[trigger] deps@[k])@) == locked_deps(all)[k],
        decreases all.len() - i,
    {
        let package = &packages[i];
        assert(all[i as int] == package@);
        let mut list: Vec<String> = Vec::new();
        let mut j: usize = 0;
        while j < package.dependencies.len()
            invariant
                j <= package.dependencies@.len(),
                list@.len() == j,
                forall|k: int| 0 <= k < j ==> (#[trigger] list@[k])@ == package.dependencies@[k].name@,
            decreases package.dependencies.len() - j,
        {
            list.push(package.dependencies[j].name.clone());
            j = j + 1;
        }
        assert(views(list@) =~= locked_deps(all)[i as int]);
        names.push(package.name.clone());
        deps.push(list);
        i = i + 1;
    }
    assert(views(names@) =~= locked_names(all));
    assert(deep_texts(deps@) =~= locked_deps(all));
    (names, deps)
}

/// Whether the tree of a lockfile can be printed.
pub fn can_print_tree(lock: &Lockfile) -> (can: bool)
    ensures
        can == can_report(lock@.packages),
{
    let packages = &lock.packages;
    let ghost all = views(packages@);
    let (names, deps) = names_and_deps(packages);
    let adj = link(&names, &deps);
    let order = build_order(&names, &adj);
    let n: usize = packages.len();
    let ends = marks(&order, n);
    let mut i: usize = 0;
    while i < n
        invariant
            all == views(packages@),
            all == lock@.packages,
            n == all.len(),
            i <= n,
            forall|v: usize|
                v < all.len() ==> (#[trigger] order@.contains(v) <==> is_settled(locked_graph(all), v)),
            ends@.len() == n,
            forall|v: usize| v < n ==> #[trigger] ends@[v as int] == order@.contains(v),
            forall|k: int| 0 <= k < i ==> can_show((#[trigger] all[k]).source),
            forall|k: int| 0 <= k < i && is_on_top(all, k) ==> #[trigger] tree_ends(all, k),
        decreases all.len() - i,
    {
        assert(all[i as int] == packages@[i as int]@);
        assert(order@.contains(i) <==> tree_ends(all, i as int));
        if !is_showable(&packages[i].source) {
            return false;
        }
        if !depended_on(packages, packages[i].name.as_str()) && !ends[i] {
            return false;
        }
        i = i + 1;
    }
    true
}

/// Prints the dependency tree of a lockfile: the trees of the packages on top,
/// then the list of all others.
pub fn print_tree(lock: &Lockfile) -> (lines: Vec<String>)
    requires
        can_report(lock@.packages),
    ensures
        views(lines@) == tree_report(lock@.packages),
{
    let packages = &lock.packages;
    let n: usize = packages.len();
    let ghost all = views(packages@);
    let mut trees: Vec<String> = Vec::new();
    let mut others: Vec<String> = Vec::new();
    let mut indirect: usize = 0;
    let mut i: usize = 0;
    assert(views(trees@) =~= top_trees(all, 0));
    assert(views(others@) =~= indirect_lines(all, 0));
    while i < n
        invariant
            all == views(packages@),
            n == all.len(),
            can_report(all),
            i <= n,
            indirect <= i,
            indirect == indirect_count(all, i as nat),
            views(trees@) == top_trees(all, i as nat),
            views(others@) == indirect_lines(all, i as nat),
        decreases n - i,
    {
        assert(all[i as int] == packages@[i as int]@);
        if depended_on(packages, packages[i].name.as_str()) {
            indirect = indirect + 1;
            let lead = indent_to(1);
            let line = show_package(lead.as_str(), &packages[i]);
            proof {
                lemma_views_push(others@, line);
            }
            others.push(line);
        } else {
            assert(tree_ends(all, i as int));
            proof {
                lemma_all_show(all, i as int, height(locked_graph(all), i));
            }
            let mut tree = print_pkg_tree(packages, i, 1);
            let ghost parts = (trees@, tree@);
            trees.append(&mut tree);
            assert(views(trees@) =~= views(parts.0) + views(parts.1));
        }
        i = i + 1;
    }
    let mut lines: Vec<String> = Vec::new();
    lines.push(String::from_str("依赖树（共 ").concat(write_decimal(n).as_str()).concat(" 个包）："));
    lines.push(String::from_str(""));
    let ghost head = seq!["依赖树（共 "@ + decimal(n as nat) + " 个包）："@, ""@];
    assert(views(lines@) =~= head);
    if indirect < n {
        let ghost parts = (views(lines@), views(trees@));
        lines.push(String::from_str("直接依赖："));
        lines.append(&mut trees);
        assert(views(lines@) =~= parts.0 + (seq!["直接依赖："@] + parts.1));
    }
    let ghost top = if indirect < n {
        seq!["直接依赖："@] + top_trees(all, n as nat)
    } else {
        Seq::empty()
    };
    assert(views(lines@) =~= head + top);
    if indirect > 0 {
        let ghost parts = (views(lines@), views(others@));
        lines.push(String::from_str(""));
        lines.push(String::from_str("间接依赖（").concat(write_decimal(indirect).as_str()).concat("个）："));
        lines.append(&mut others);
        assert(views(lines@) =~= parts.0 + (seq![""@, "间接依赖（"@ + decimal(indirect as nat) + "个）："@] + parts.1));
    }
    assert(views(lines@) =~= tree_report(all));
    lines
}

/// In the lockfile for packages in dependency order, every tree ends.
pub proof fn law_installed_tree_ends(
    nodes: Seq<ResolvedNodeView>,
    dir_hashes: Seq<Text>,
    manifest_sha: Text,
    v: int,
)
    requires
        nodes.len() <= usize::MAX,
        dir_hashes.len() == nodes.len(),
        node_names(nodes).no_duplicates(),
        is_dependency_order(node_names(nodes), node_deps(nodes)),
        0 <= v < nodes.len(),
    ensures
        tree_ends(lockfile_of(nodes, dir_hashes, manifest_sha).packages, v),
{
    let raw = locked_packages(nodes, dir_hashes);
    let packages = lockfile_of(nodes, dir_hashes, manifest_sha).packages;
    law_sorted_keeps_elements(raw, |p: LockedPackageView| encode_utf8(p.name));
    assert(packages.contains(packages[v]));
    assert(raw.contains(packages[v]));
    let i = choose|i: int| 0 <= i < raw.len() && raw[i] == packages[v];
    lemma_locked_settles(nodes, dir_hashes, packages, v, i);
}

/// A locked package settles as early as the package that it pins stands in
/// dependency order.
proof fn lemma_locked_settles(
    nodes: Seq<ResolvedNodeView>,
    dir_hashes: Seq<Text>,
    packages: Seq<LockedPackageView>,
    v: int,
    i: int,
)
    requires
        nodes.len() <= usize::MAX,
        packages.len() == nodes.len(),
        forall|p: LockedPackageView| #[trigger] packages.contains(p) <==> locked_packages(nodes, dir_hashes).contains(p),
        node_names(nodes).no_duplicates(),
        is_dependency_order(node_names(nodes), node_deps(nodes)),
        0 <= v < packages.len(),
        0 <= i < nodes.len(),
        packages[v] == locked_packages(nodes, dir_hashes)[i],
    ensures
        settles(locked_graph(packages), v as usize, (i + 1) as nat),
    decreases i,
{
    let raw = locked_packages(nodes, dir_hashes);
    let names = locked_names(packages);
    let ds = locked_deps(packages)[v];
    let graph = locked_graph(packages);
    let deps = node_deps(nodes)[i];
    lemma_found_deps(names, ds);
    assert(ds =~= deps);
    assert forall|e: int| 0 <= e < graph[v].len() implies settles(graph, #[trigger] graph[v][e], i as nat) by {
        let w = graph[v][e] as int;
        assert(packages.contains(packages[w]));
        assert(raw.contains(packages[w]));
        let j = choose|j: int| 0 <= j < raw.len() && raw[j] == packages[w];
        let name = packages[w].name;
        assert(deps.contains(name)) by {
            assert(names[w] == name);
        }
        let d = choose|d: int| 0 <= d < deps.len() && deps[d] == name;
        assert(node_names(nodes)[j] == name);
        lemma_position(node_names(nodes), name);
        lemma_last_position(node_names(nodes), deps);
        assert(position(node_names(nodes), deps[d]) == j);
        assert(j < i);
        lemma_locked_settles(nodes, dir_hashes, packages, w, j);
        lemma_settles_more(graph, w as usize, (j + 1) as nat, i as nat);
    }
}

/// A package is on top just where no package lists a dependency of its name.
pub proof fn law_on_top(packages: Seq<LockedPackageView>, v: int)
    ensures
        is_on_top(packages, v) <==> forall|i: int, k: int|
            0 <= i < packages.len() && 0 <= k < packages[i].dependencies.len() ==> (
            #[trigger] packages[i].dependencies[k]).name != packages[v].name,
{
}

/// A line is indented by two spaces for each level.
pub proof fn law_indent(depth: nat)
    ensures
        indent(depth).len() == 2 * depth,
        forall|i: int| 0 <= i < indent(depth).len() ==> #[trigger] indent(depth)[i] == ' ',
    decreases depth,
{
    reveal_strlit("  ");
    if depth > 0 {
        law_indent((depth - 1) as nat);
    }
}

/// The line of a package shows, behind the indentation, its name, its version
/// and where it comes from: the path, the repository with the first eight
/// characters of the commit, or the registry.
pub proof fn law_package_line(package: LockedPackageView, depth: nat)
    ensures
        package_line(package, depth) == indent(depth) + package.name + "@"@ + package.version + " ["@ + source_info(
            package.source,
        ) + "]"@,
        package.source matches LockedSourceView::Path { path } ==> source_info(package.source) == "path:"@ + path,
        package.source matches LockedSourceView::Registry { url, .. } ==> source_info(package.source) == "registry:"@
            + url,
        package.source matches LockedSourceView::Git { url, rev } ==> (is_ascii_chars(rev) && rev.len() >= 8
            ==> source_info(package.source) == "git+"@ + url + "#"@ + rev.take(8)),
        package.source matches LockedSourceView::Git { url, rev } ==> (is_ascii_chars(rev) && rev.len() < 8
            ==> source_info(package.source) == "git+"@ + url + "#"@ + rev),
{
    if let LockedSourceView::Git { rev, .. } = package.source {
        if is_ascii_chars(rev) {
            law_ascii_cut(rev, 8);
        }
    }
}

/// Below a package its dependencies are shown in order: one of which there is a
/// package, the first of its name, with the tree below that package; any other
/// with a line that shows its name and version, and that it is not installed.
pub proof fn law_branches_in_order(packages: Seq<LockedPackageView>, v: int, n: nat, depth: nat, p: int)
    requires
        0 <= v < packages.len(),
        n < packages[v].dependencies.len(),
    ensures
        ({
            let dep = packages[v].dependencies[n as int];
            let before = branches(packages, v, n, depth);
            let after = branches(packages, v, n + 1, depth);
            &&& 0 <= p < packages.len() && packages[p].name == dep.name && (forall|q: int|
                0 <= q < p ==> (#[trigger] packages[q]).name != dep.name) ==> after == before + package_tree(
                packages,
                p,
                depth + 1,
            )
            &&& (forall|q: int| 0 <= q < packages.len() ==> (#[trigger] packages[q]).name != dep.name) ==> after
                == before + seq![indent(depth + 1) + dep.name + "@"@ + dep.version + " [未安装]"@]
        }),
        branches(packages, v, 0, depth).len() == 0,
{
    let dep = packages[v].dependencies[n as int];
    let names = locked_names(packages);
    lemma_position(names, dep.name);
    let at = position(names, dep.name);
    if at >= 0 {
        assert(packages[at].name == names[at]);
    }
    if 0 <= p < packages.len() && packages[p].name == dep.name && (forall|q: int|
        0 <= q < p ==> (#[trigger] packages[q]).name != dep.name) {
        assert(names[p] == dep.name);
        assert(at == p) by {
            if at < p {
                assert(packages[at].name == dep.name);
            }
        }
    }
}

/// Every package of a lockfile is shown in its report, at the first level: with
/// the tree below it where it is on top, and by its line alone otherwise.
pub proof fn law_every_package_is_shown(packages: Seq<LockedPackageView>, v: int)
    requires
        packages.len() <= usize::MAX,
        can_report(packages),
        0 <= v < packages.len(),
    ensures
        tree_report(packages).contains(package_line(packages[v], 1)),
{
    let n = packages.len();
    let line = package_line(packages[v], 1);
    let report = tree_report(packages);
    let indirect = indirect_count(packages, n);
    lemma_counts(packages, n, v);
    let head = seq!["依赖树（共 "@ + decimal(n) + " 个包）："@, ""@];
    let top = if indirect < n {
        seq!["直接依赖："@] + top_trees(packages, n)
    } else {
        Seq::empty()
    };
    let rest = if indirect > 0 {
        seq![""@, "间接依赖（"@ + decimal(indirect) + "个）："@] + indirect_lines(packages, n)
    } else {
        Seq::empty()
    };
    assert(report == head + top + rest);
    if is_on_top(packages, v) {
        assert(tree_ends(packages, v));
        lemma_top_shown(packages, n, v);
        let k = choose|k: int| 0 <= k < top_trees(packages, n).len() && top_trees(packages, n)[k] == line;
        assert(top[1 + k] == line);
        assert(report[2 + (1 + k)] == line);
    } else {
        lemma_indirect_shown(packages, n, v);
        let k = choose|k: int| 0 <= k < indirect_lines(packages, n).len() && indirect_lines(packages, n)[k] == line;
        assert(rest[2 + k] == line);
        assert(report[2 + top.len() + (2 + k)] == line);
    }
}

proof fn lemma_counts(packages: Seq<LockedPackageView>, n: nat, v: int)
    requires
        n <= packages.len(),
    ensures
        indirect_count(packages, n) <= n,
        0 <= v < n && is_on_top(packages, v) ==> indirect_count(packages, n) < n,
        0 <= v < n && !is_on_top(packages, v) ==> indirect_count(packages, n) > 0,
    decreases n,
{
    if n > 0 {
        lemma_counts(packages, (n - 1) as nat, v);
    }
}

proof fn lemma_top_shown(packages: Seq<LockedPackageView>, n: nat, v: int)
    requires
        packages.len() <= usize::MAX,
        0 <= v < n <= packages.len(),
        is_on_top(packages, v),
        tree_ends(packages, v),
    ensures
        top_trees(packages, n).contains(package_line(packages[v], 1)),
    decreases n,
{
    let line = package_line(packages[v], 1);
    let front = top_trees(packages, (n - 1) as nat);
    let all = top_trees(packages, n);
    if v == n - 1 {
        law_tree_unfolds(packages, v, 1);
        assert(package_tree(packages, v, 1)[0] == line);
        assert(all[front.len() as int] == line);
    } else {
        lemma_top_shown(packages, (n - 1) as nat, v);
        let k = choose|k: int| 0 <= k < front.len() && front[k] == line;
        assert(all[k] == line);
    }
}

proof fn lemma_indirect_shown(packages: Seq<LockedPackageView>, n: nat, v: int)
    requires
        0 <= v < n <= packages.len(),
        !is_on_top(packages, v),
    ensures
        indirect_lines(packages, n).contains(package_line(packages[v], 1)),
    decreases n,
{
    let line = package_line(packages[v], 1);
    let front = indirect_lines(packages, (n - 1) as nat);
    let all = indirect_lines(packages, n);
    if v == n - 1 {
        assert(all[front.len() as int] == line);
    } else {
        lemma_indirect_shown(packages, (n - 1) as nat, v);
        let k = choose|k: int| 0 <= k < front.len() && front[k] == line;
        assert(all[k] == line);
    }
}

/// The report begins with the number of packages. It counts those that others
/// depend on and lists each of them by its line, in order, if there are any;
/// before that it shows the trees of the others, in order, if there are any.
pub proof fn law_report(packages: Seq<LockedPackageView>)
    ensures
        ({
            let report = tree_report(packages);
            let n = packages.len();
            let indirect = indirect_lines(packages, n);
            let shown = top_trees(packages, n);
            &&& report[0] == "依赖树（共 "@ + decimal(n) + " 个包）："@
            &&& indirect.len() == indirect_count(packages, n)
            &&& indirect.len() > 0 ==> {
                let m = report.len() - indirect.len();
                &&& report.skip(m) == indirect
                &&& report[m - 1] == "间接依赖（"@ + decimal(indirect.len()) + "个）："@
            }
            &&& indirect.len() < n ==> report.subrange(3, 3 + shown.len() as int) == shown && report[2] == "直接依赖："@
            &&& indirect.len() == n && n > 0 ==> report.len() == 4 + n
            &&& indirect.len() == 0 && n > 0 ==> report.len() == 3 + shown.len()
            &&& n == 0 ==> report.len() == 2
        }),
{
    let report = tree_report(packages);
    let n = packages.len();
    let indirect = indirect_lines(packages, n);
    let shown = top_trees(packages, n);
    lemma_indirect_lines(packages, n);
    lemma_counts(packages, n, -1);
    if indirect.len() > 0 {
        assert(report.skip(report.len() - indirect.len()) =~= indirect);
    }
    if indirect.len() < n {
        assert(report.subrange(3, 3 + shown.len() as int) =~= shown);
    }
}

proof fn lemma_indirect_lines(packages: Seq<LockedPackageView>, n: nat)
    ensures
        indirect_lines(packages, n).len() == indirect_count(packages, n),
    decreases n,
{
    if n > 0 {
        lemma_indirect_lines(packages, (n - 1) as nat);
    }
}

/// One package more adds its line to those that others depend on, or else its
/// tree to the trees on top, and leaves those before it.
pub proof fn law_one_package_more(packages: Seq<LockedPackageView>, n: nat)
    requires
        n < packages.len(),
    ensures
        ({
            let depended_on = exists|i: int, k: int|
                0 <= i < packages.len() && 0 <= k < packages[i].dependencies.len() && (
                #[trigger] packages[i].dependencies[k]).name == packages[n as int].name;
            &&& depended_on ==> indirect_lines(packages, n + 1) == indirect_lines(packages, n) + seq![
                package_line(packages[n as int], 1),
            ] && top_trees(packages, n + 1) == top_trees(packages, n)
            &&& !depended_on ==> top_trees(packages, n + 1) == top_trees(packages, n) + package_tree(
                packages,
                n as int,
                1,
            ) && indirect_lines(packages, n + 1) == indirect_lines(packages, n)
        }),
        indirect_lines(packages, 0).len() == 0,
        top_trees(packages, 0).len() == 0,
{
    if !is_on_top(packages, n as int) {
        assert(indirect_lines(packages, n + 1) =~= indirect_lines(packages, n) + seq![
            package_line(packages[n as int], 1),
        ]);
    }
}

/// A commit of ASCII characters can be shown, and so can any other source; and
/// the tree of the lockfile for packages in dependency order can be printed.
pub proof fn law_installed_tree_prints(nodes: Seq<ResolvedNodeView>, dir_hashes: Seq<Text>, manifest_sha: Text)
    requires
        nodes.len() <= usize::MAX,
        dir_hashes.len() == nodes.len(),
        node_names(nodes).no_duplicates(),
        is_dependency_order(node_names(nodes), node_deps(nodes)),
        forall|i: int|
            0 <= i < nodes.len() ==> ((#[trigger] nodes[i]).source matches ResolvedSourceView::Git { rev, .. }
                ==> is_ascii_chars(rev)),
    ensures
        can_report(lockfile_of(nodes, dir_hashes, manifest_sha).packages),
{
    let raw = locked_packages(nodes, dir_hashes);
    let packages = lockfile_of(nodes, dir_hashes, manifest_sha).packages;
    law_sorted_keeps_elements(raw, |p: LockedPackageView| encode_utf8(p.name));
    assert forall|v: int| 0 <= v < packages.len() implies can_show((#[trigger] packages[v]).source) by {
        assert(packages.contains(packages[v]));
        assert(raw.contains(packages[v]));
        let i = choose|i: int| 0 <= i < raw.len() && raw[i] == packages[v];
        assert(raw[i].source == locked_source(nodes[i].source));
        if let LockedSourceView::Git { rev, .. } = packages[v].source {
            law_ascii_cut(rev, 8);
        }
    }
    assert forall|v: int| 0 <= v < packages.len() && is_on_top(packages, v) implies #[trigger] tree_ends(packages, v) by {
        law_installed_tree_ends(nodes, dir_hashes, manifest_sha, v);
    }
}

/// What is printed shows every package of the lockfile, behind the number of
/// packages.
pub proof fn law_print_tree(lock: &Lockfile, lines: Vec<String>, v: int)
    requires
        can_report(lock@.packages),
        call_ensures(print_tree, (lock,), lines),
        0 <= v < lock.packages@.len() <= usize::MAX,
    ensures
        views(lines@).contains(package_line(lock.packages@[v]@, 1)),
        lines@.len() > 0,
        lines@[0]@ == "依赖树（共 "@ + decimal(lock.packages@.len()) + " 个包）："@,
{
    assert(lock@.packages[v] == lock.packages@[v]@);
    law_every_package_is_shown(lock@.packages, v);
    law_report(lock@.packages);
    assert(views(lines@)[0] == lines@[0]@);
}

} // verus!
