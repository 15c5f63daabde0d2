use neptune::emit::{generate_neptune_path_lua, lua_cpath, lua_path, meta_fields, package_meta};
use neptune::install::{
    conflict_report, make_lockfile, plan_lock, reads_lock, reads_sources, InstallError, LockPlan,
};
use neptune::lockfile::{LockError, LockedDep, LockedPackage, LockedSource, Lockfile, LOCK_VERSION};
use neptune::manifest::{DepMap, DepSpec};
use neptune::packages::{
    generate_modules_mapping, is_namable, materialize_pkg, missing_module, package_steps, pkg_id, short_hash, tally,
};
use neptune::paths::{pkgs_dir, FsPath};
use neptune::resolver::{Conflict, ConflictDemand, ConflictKind, PackageId, ResolvedNode, ResolvedSource};
use neptune::tree::{can_print_tree, print_pkg_tree, print_tree, show_source};

const COMMIT: &str = "deadbeefcafe0123456789abcdef0123456789ab";

fn strings(list: &[&str]) -> Vec<String> {
    list.iter().map(|s| s.to_string()).collect()
}

fn node(name: &str, source: ResolvedSource, deps: &[&str]) -> ResolvedNode {
    let mut direct_deps = DepMap::new();
    for d in deps {
        direct_deps.insert(d.to_string(), DepSpec::VersionReq("*".to_string()));
    }
    ResolvedNode {
        name: name.to_string(),
        version: format!("1.0.{}", name.len()),
        source,
        direct_deps,
        id: PackageId::for_path(name, "x"),
    }
}

fn path_source(p: &str) -> ResolvedSource {
    ResolvedSource::Path { abs_path: p.to_string() }
}

fn git_source() -> ResolvedSource {
    ResolvedSource::Git { url: "https://x/y".to_string(), rev: COMMIT.to_string() }
}

fn locked(name: &str, source: LockedSource, deps: &[&str]) -> LockedPackage {
    LockedPackage {
        name: name.to_string(),
        version: "1.0.0".to_string(),
        source,
        content_sha256: "a1b2c3d4e5f6".to_string(),
        dependencies: deps
            .iter()
            .map(|d| LockedDep { name: d.to_string(), version: "2.0.0".to_string() })
            .collect(),
    }
}

fn at_path(name: &str, deps: &[&str]) -> LockedPackage {
    locked(name, LockedSource::Path { path: format!("/src/{}", name) }, deps)
}

fn at_commit(name: &str) -> LockedPackage {
    locked(name, LockedSource::Git { url: "https://x/y".to_string(), rev: COMMIT.to_string() }, &[])
}

fn at_registry(name: &str) -> LockedPackage {
    locked(name, LockedSource::Registry { url: "https://r".to_string(), package: name.to_string() }, &[])
}

fn lock(packages: Vec<LockedPackage>) -> Lockfile {
    Lockfile { lock_version: LOCK_VERSION, manifest_sha256: "abcd".to_string(), packages }
}

#[test]
fn frozen_installation_never_resolves() {
    assert!(matches!(plan_lock(true, Some(&lock(vec![])), &vec![], "abcd"), Ok(LockPlan::Keep)));
    let e = plan_lock(true, Some(&lock(vec![])), &vec![], "other").unwrap_err();
    assert!(matches!(e, InstallError::FrozenStale));
    assert_eq!(
        e.message(),
        "--frozen 模式下检测到 manifest 或 lockfile schema 已变化。\n请在非 frozen 模式下运行 npt install 更新 lockfile，\n然后将新的 neptune.lock 提交到版本控制。"
    );
    let e = plan_lock(true, None, &vec![], "abcd").unwrap_err();
    assert!(matches!(e, InstallError::FrozenMissing));
    assert_eq!(
        e.message(),
        "--frozen 模式下未找到 neptune.lock，请先在非 frozen 模式下运行 npt install"
    );
}

#[test]
fn ordinary_installation_resolves_when_needed() {
    assert!(matches!(plan_lock(false, Some(&lock(vec![])), &vec![], "abcd"), Ok(LockPlan::Keep)));
    assert!(matches!(plan_lock(false, Some(&lock(vec![])), &vec![], "other"), Ok(LockPlan::Refresh)));
    assert!(matches!(plan_lock(false, None, &vec![], "abcd"), Ok(LockPlan::Create)));
    assert!(reads_lock(false, true));
    assert!(!reads_lock(true, true));
    assert!(!reads_lock(false, false));
}

#[test]
fn faulty_lockfile_stops_an_installation() {
    let mut bad = lock(vec![at_path("a", &[])]);
    bad.packages[0].version = String::new();
    let e = plan_lock(false, Some(&bad), &vec![], "other").unwrap_err();
    assert!(matches!(&e, InstallError::Lock(LockError::EmptyVersion(n)) if n == "a"));
    assert_eq!(e.message(), "lockfile 中包 a 的 version 为空");
}

#[test]
fn new_lockfile_is_kept() {
    let nodes = vec![node("z", path_source("/z"), &[]), node("app", git_source(), &["z", "gone"])];
    let made = make_lockfile(&nodes, &strings(&["0011223344", ""]), "sha");
    assert_eq!(made.lock_version, 2);
    assert_eq!(made.packages[0].name, "app");
    assert_eq!(made.packages[0].content_sha256, COMMIT);
    assert_eq!(made.packages[0].dependencies[0].name, "gone");
    assert_eq!(made.packages[0].dependencies[0].version, "");
    assert_eq!(made.packages[0].dependencies[1].name, "z");
    assert_eq!(made.packages[0].dependencies[1].version, "1.0.1");
    assert_eq!(made.packages[1].content_sha256, "0011223344");
    let now = vec![None, Some("0011223344".to_string())];
    assert!(matches!(plan_lock(true, Some(&made), &now, "sha"), Ok(LockPlan::Keep)));
    assert!(matches!(plan_lock(false, Some(&made.sorted()), &now, "sha"), Ok(LockPlan::Keep)));
    assert!(!matches!(plan_lock(false, Some(&made), &now, "changed"), Ok(LockPlan::Keep)));
    let swapped = make_lockfile(
        &vec![node("app", git_source(), &["z", "gone"]), node("z", path_source("/z"), &[])],
        &strings(&["", "0011223344"]),
        "sha",
    );
    assert_eq!(format!("{:?}", swapped), format!("{:?}", made));
}

#[test]
fn changed_source_is_noticed() {
    let kept = lock(vec![at_commit("g"), at_path("p", &[])]);
    let same = vec![None, Some("a1b2c3d4e5f6".to_string())];
    let changed = vec![None, Some("ffffffffffff".to_string())];
    assert!(matches!(plan_lock(false, Some(&kept), &same, "abcd"), Ok(LockPlan::Keep)));
    assert!(matches!(plan_lock(false, Some(&kept), &changed, "abcd"), Ok(LockPlan::Refresh)));
    let root = FsPath::new("/root");
    let pkgs = pkgs_dir(&root);
    let old_dst = materialize_pkg(&kept.packages[1], &root, &pkgs).unwrap().dst.parts;
    let mut fresh = kept.packages[1].clone();
    fresh.content_sha256 = "ffffffffffff".to_string();
    let new_dst = materialize_pkg(&fresh, &root, &pkgs).unwrap().dst.parts;
    assert_ne!(old_dst, new_dst);
    assert_eq!(generate_modules_mapping(&root, &pkgs, &lock(vec![fresh]))[0].installed.parts, new_dst);
}

#[test]
fn missing_source_tells_of_no_change() {
    let kept = lock(vec![at_path("p", &[])]);
    assert!(matches!(plan_lock(false, Some(&kept), &vec![None], "abcd"), Ok(LockPlan::Keep)));
    assert!(matches!(plan_lock(false, Some(&kept), &vec![], "abcd"), Ok(LockPlan::Keep)));
    assert!(matches!(plan_lock(false, Some(&kept), &vec![None], "other"), Ok(LockPlan::Refresh)));
}

#[test]
fn frozen_installation_goes_by_the_manifest() {
    let kept = lock(vec![at_path("p", &[])]);
    let changed = vec![Some("ffffffffffff".to_string())];
    assert!(matches!(plan_lock(true, Some(&kept), &changed, "abcd"), Ok(LockPlan::Keep)));
    assert!(matches!(plan_lock(true, Some(&kept), &changed, "other"), Err(InstallError::FrozenStale)));
    assert!(reads_sources(false, Some(&kept), "abcd"));
    assert!(!reads_sources(true, Some(&kept), "abcd"));
    assert!(!reads_sources(false, Some(&kept), "other"));
    assert!(!reads_sources(false, None, "abcd"));
}

#[test]
fn conflicts_are_reported_together() {
    assert!(conflict_report(&vec![]).is_none());
    let c = |name: &str| Conflict {
        package_name: name.to_string(),
        kind: ConflictKind::SourceMismatch,
        demands: vec![ConflictDemand { requester_chain: "root".to_string(), version_req: "/x".to_string() }],
    };
    assert_eq!(
        conflict_report(&vec![c("a"), c("b")]).unwrap(),
        "发现依赖冲突，无法继续安装：\n\n\
         来源冲突：包 \"a\" 被多个依赖从不同来源引入：\n  - root 要求 /x\n\n\
         来源冲突：包 \"b\" 被多个依赖从不同来源引入：\n  - root 要求 /x\n\n\
         请解决上述冲突后重新运行 npt install。"
    );
}

#[test]
fn package_ids() {
    assert_eq!(short_hash("0123456789"), "01234567");
    assert_eq!(short_hash("0123"), "0123");
    assert_eq!(pkg_id(&at_path("a", &[])).unwrap(), "path-a1b2c3d4");
    assert_eq!(pkg_id(&at_commit("g")).unwrap(), "git-deadbeef");
    assert!(pkg_id(&at_registry("r")).is_none());
    let short = locked("g", LockedSource::Git { url: "u".to_string(), rev: "v/1".to_string() }, &[]);
    assert_eq!(pkg_id(&short).unwrap(), "git-v_1");
    let odd = locked("g", LockedSource::Git { url: "u".to_string(), rev: "分支".to_string() }, &[]);
    assert!(!is_namable(&odd));
    assert!(is_namable(&short));
    assert!(is_namable(&at_registry("r")));
}

#[test]
fn packages_are_planned() {
    let root = FsPath::new("/root");
    let pkgs = pkgs_dir(&root);
    let plan = materialize_pkg(&at_path("a", &[]), &root, &pkgs).unwrap();
    assert_eq!(plan.src.base, "/src/a");
    assert!(plan.src.parts.is_empty());
    assert_eq!(plan.dst.parts, strings(&[".neptune", "pkgs", "a", "path-a1b2c3d4"]));
    assert_eq!(plan.content_sha256, "a1b2c3d4e5f6");
    let plan = materialize_pkg(&at_commit("g"), &root, &pkgs).unwrap();
    assert_eq!(plan.src.parts[3], format!("https___x_y-{}", COMMIT));
    assert_eq!(plan.dst.parts[3], "git-deadbeef");
    assert_eq!(plan.content_sha256, format!("git-commit:{}", COMMIT));
    let e = materialize_pkg(&at_registry("r"), &root, &pkgs).unwrap_err();
    assert!(matches!(e, InstallError::Registry));
    assert_eq!(e.message(), "v0.3 原型暂不支持 registry 依赖，将在 v0.4 实现");
}

#[test]
fn steps_left_for_a_package() {
    let git = at_commit("g").source;
    let path = at_path("a", &[]).source;
    let s = package_steps(&git, false, false);
    assert!(s.clone && s.copy);
    let s = package_steps(&git, true, true);
    assert!(!s.clone && !s.copy);
    let s = package_steps(&path, false, false);
    assert!(!s.clone && s.copy);
    assert_eq!(tally(&vec![true, false, true]), (2, 1));
    assert_eq!(tally(&vec![]), (0, 0));
}

#[test]
fn modules_lead_to_installed_packages() {
    let root = FsPath::new("/root");
    let pkgs = pkgs_dir(&root);
    let all = lock(vec![at_path("a", &[]), at_registry("r"), at_commit("g")]);
    let links = generate_modules_mapping(&root, &pkgs, &all);
    assert_eq!(links.len(), 2);
    assert_eq!(links[0].dst.parts, strings(&["nelua_modules", "a"]));
    assert_eq!(links[1].name, "g");
    assert!(missing_module(&links[0], "/x", true).is_none());
    assert_eq!(
        missing_module(&links[0], "/x", false).unwrap(),
        "警告：包 a 的安装目录不存在（/x），跳过模块映射"
    );
    for (link, package) in [(&links[0], &all.packages[0]), (&links[1], &all.packages[2])] {
        assert_eq!(link.installed.parts, materialize_pkg(package, &root, &pkgs).unwrap().dst.parts);
    }
}

#[test]
fn installed_packages_are_marked() {
    let fields = meta_fields("a", "1.0.0", "sha");
    assert_eq!(fields[0], ("name".to_string(), "a".to_string()));
    assert_eq!(fields[3], ("npt_version".to_string(), "0.3.1".to_string()));
    let root = FsPath::new("/root");
    let plan = materialize_pkg(&at_path("a", &[]), &root, &pkgs_dir(&root)).unwrap();
    let (file, bytes) = package_meta("a", "1.0 \"x\"", &plan);
    assert_eq!(file.parts[4], ".neptune-meta.json");
    assert_eq!(
        String::from_utf8(bytes).unwrap(),
        "{\n  \"content_sha256\": \"a1b2c3d4e5f6\",\n  \"name\": \"a\",\n  \"npt_version\": \"0.3.1\",\n  \"version\": \"1.0 \\\"x\\\"\"\n}"
    );
}

#[test]
fn module_search_paths() {
    let (file, text) = generate_neptune_path_lua(&FsPath::new("/root"));
    assert_eq!(file.parts, strings(&["neptune_path.lua"]));
    let lines = [
        "-- Auto-generated by Neptune (npt) v0.3. DO NOT EDIT.",
        "-- Usage: add `require('neptune_path')` at your program entry point.",
        "-- This file sets up Lua module search paths for all installed dependencies.",
        "",
        "local root = './nelua_modules'",
        "",
        "-- Nelua/Lua module search paths",
        "package.path = root..'/?.lua;'..root..'/?/init.lua;'..package.path",
        "",
        "-- Native module search (for C extensions, future-proof)",
        "package.cpath = root..'/?.so;'..root..'/?.dll;'..package.cpath",
        "",
        "return true",
        "",
    ];
    assert_eq!(text, lines.join("\n"));
    assert_eq!(lua_path("/m"), "/m/?.lua;/m/?/init.lua;;");
    assert_eq!(lua_cpath("/m"), "/m/?.so;/m/?.dll;;");
}

#[test]
fn dependency_tree_is_printed() {
    let all = lock(vec![
        at_path("app", &["base", "gone"]),
        at_path("base", &["deep"]),
        at_commit("deep"),
        at_registry("reg"),
    ]);
    assert!(can_print_tree(&all));
    assert_eq!(
        print_tree(&all),
        strings(&[
            "依赖树（共 4 个包）：",
            "",
            "直接依赖：",
            "  app@1.0.0 [path:/src/app]",
            "    base@1.0.0 [path:/src/base]",
            "      deep@1.0.0 [git+https://x/y#deadbeef]",
            "    gone@2.0.0 [未安装]",
            "  reg@1.0.0 [registry:https://r]",
            "",
            "间接依赖（2个）：",
            "  base@1.0.0 [path:/src/base]",
            "  deep@1.0.0 [git+https://x/y#deadbeef]",
        ])
    );
    assert_eq!(print_pkg_tree(&all.packages, 2, 0), strings(&["deep@1.0.0 [git+https://x/y#deadbeef]"]));
    assert_eq!(show_source(&all.packages[0].source), "path:/src/app");
}

#[test]
fn tree_of_nothing() {
    assert_eq!(print_tree(&lock(vec![])), strings(&["依赖树（共 0 个包）：", ""]));
}

#[test]
fn trees_that_cannot_be_printed() {
    let below = lock(vec![at_path("top", &["a"]), at_path("a", &["b"]), at_path("b", &["a"])]);
    assert!(!can_print_tree(&below));
    let apart = lock(vec![at_path("top", &[]), at_path("a", &["b"]), at_path("b", &["a"])]);
    assert!(can_print_tree(&apart));
    assert_eq!(print_tree(&apart).len(), 8);
    let odd = lock(vec![locked(
        "g",
        LockedSource::Git { url: "u".to_string(), rev: "1234567é".to_string() },
        &[],
    )]);
    assert!(!can_print_tree(&odd));
}
