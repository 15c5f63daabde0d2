use neptune::demands::{find_version_conflicts, version_conflict_from};
use neptune::manifest::{init_manifest, DepMap, DepSpec, Manifest};
use neptune::paths::FsPath;
use neptune::resolution::{Located, Next, Resolution, Resolver};
use neptune::resolver::{
    content_excludes, dep_spec_to_package_id, dep_spec_to_req_string, node_base, node_to_locked_package, repo_dir,
    resolve_context, resolve_git_dep, resolve_path_dep, source_request, topological_sort, Conflict, ConflictDemand,
    ConflictKind, PackageId, ResolveError, ResolveResult, ResolvedNode, ResolvedSource, SourceRequest,
};

fn path_dep(path: &str) -> DepSpec {
    versioned_path_dep(path, None)
}

fn versioned_path_dep(path: &str, version: Option<&str>) -> DepSpec {
    DepSpec::Detailed {
        version: version.map(|s| s.to_string()),
        git: None,
        rev: None,
        tag: None,
        branch: None,
        path: Some(path.to_string()),
        registry: None,
        optional: None,
    }
}

fn git_dep(url: &str, rev: Option<&str>, tag: Option<&str>, branch: Option<&str>) -> DepSpec {
    DepSpec::Detailed {
        version: None,
        git: Some(url.to_string()),
        rev: rev.map(|s| s.to_string()),
        tag: tag.map(|s| s.to_string()),
        branch: branch.map(|s| s.to_string()),
        path: None,
        registry: None,
        optional: None,
    }
}

fn no_source() -> DepSpec {
    DepSpec::Detailed {
        version: None,
        git: None,
        rev: None,
        tag: None,
        branch: None,
        path: None,
        registry: None,
        optional: None,
    }
}

fn manifest(name: &str, version: &str, deps: Vec<(&str, DepSpec)>) -> Manifest {
    let mut m = init_manifest(Some(name.to_string()), None, None, None);
    m.version = version.to_string();
    for (n, d) in deps {
        m.dependencies.insert(n.to_string(), d);
    }
    m
}

fn node(name: &str, deps: &[&str]) -> ResolvedNode {
    let mut direct_deps = DepMap::new();
    for d in deps {
        direct_deps.insert(d.to_string(), path_dep("x"));
    }
    ResolvedNode {
        name: name.to_string(),
        version: "1.0.0".to_string(),
        source: ResolvedSource::Path { abs_path: format!("/{}", name) },
        direct_deps,
        id: PackageId::for_path(name, &format!("/{}", name)),
    }
}

fn names(nodes: &[ResolvedNode]) -> Vec<&str> {
    nodes.iter().map(|n| n.name.as_str()).collect()
}

// Resolves over a world of directories: each path has a manifest.
fn run(root: &Manifest, world: &[(&str, Manifest)]) -> Result<ResolveResult, ResolveError> {
    let mut state: Resolution = Resolver::new(FsPath::new("/root")).resolve(root);
    loop {
        let locating = match state.next()? {
            Next::Done(done) => return done.finish(),
            Next::Locate(l) => l,
        };
        let found = match locating.request() {
            SourceRequest::Path { rel } => rel.clone(),
            SourceRequest::Git { url, rev } => format!("commit-of-{}-{}", url, rev),
        };
        state = match locating.found(&found) {
            Located::Known(next) => next,
            Located::New(loading) => {
                let m = world.iter().find(|w| w.0 == found).map(|w| &w.1);
                loading.loaded(&found, m)
            }
        };
    }
}

#[test]
fn transitive_dependencies_are_resolved() {
    let root = manifest("root", "0.1.0", vec![("app-lib", path_dep("/a")), ("util", path_dep("/u"))]);
    let world = vec![
        ("/a", manifest("a", "1.2.0", vec![("base", path_dep("/b")), ("util", path_dep("/u"))])),
        ("/u", manifest("u", "0.3.0", vec![("base", path_dep("/b"))])),
    ];
    let result = run(&root, &world).unwrap();
    assert_eq!(names(&result.packages), vec!["base", "util", "app-lib"]);
    assert_eq!(result.packages[0].version, "0.0.0");
    assert_eq!(result.packages[2].version, "1.2.0");
    assert_eq!(result.packages[2].id.source_fingerprint, "/a");
    assert!(result.conflicts.is_empty());
}

#[test]
fn nothing_to_resolve() {
    let result = run(&manifest("root", "0.1.0", vec![]), &[]).unwrap();
    assert!(result.packages.is_empty());
    assert!(result.conflicts.is_empty());
}

#[test]
fn git_dependencies_are_pinned_to_commits() {
    let root = manifest("root", "0.1.0", vec![("g", git_dep("u", None, None, Some("main")))]);
    let result = run(&root, &[]).unwrap();
    assert!(matches!(
        &result.packages[0].source,
        ResolvedSource::Git { url, rev } if url == "u" && rev == "commit-of-u-main"
    ));
    assert_eq!(result.packages[0].id.source_fingerprint, "u#commit-of-u-main");
}

#[test]
fn paths_in_a_repository_are_seen_from_its_commit() {
    let root = manifest("root", "0.1.0", vec![("g", git_dep("u", None, None, Some("main")))]);
    let inner = manifest("g", "1.0.0", vec![("sub", path_dep("sub"))]);
    let locating = match Resolver::new(FsPath::new("/root")).resolve(&root).next() {
        Ok(Next::Locate(l)) => l,
        _ => panic!("nothing to look up"),
    };
    let loading = match locating.found("c0ffee") {
        Located::New(l) => l,
        Located::Known(_) => panic!("known"),
    };
    match loading.loaded("c0ffee", Some(&inner)).next() {
        Ok(Next::Locate(l)) => {
            assert_eq!(l.item().name, "sub");
            assert_eq!(l.item().base.parts, vec![".neptune", "cache", "git", "u-c0ffee"]);
        }
        _ => panic!("nothing to look up"),
    }
}

#[test]
fn package_ids_tell_sources_apart() {
    let id = PackageId::for_git("bar", "https://x/bar.git", "abc123");
    assert_eq!(id.name, "bar");
    assert_eq!(id.source_fingerprint, "https://x/bar.git#abc123");
    assert_eq!(PackageId::for_path("bar", "/abs").source_fingerprint, "/abs");
}

#[test]
fn different_sources_are_a_conflict() {
    let root = manifest("root", "0.1.0", vec![("a", path_dep("/a")), ("lib", path_dep("/one"))]);
    let world = vec![("/a", manifest("a", "1.0.0", vec![("lib", path_dep("/two"))]))];
    let result = run(&root, &world).unwrap();
    assert_eq!(names(&result.packages), vec!["lib", "a"]);
    assert_eq!(result.packages[0].id.source_fingerprint, "/one");
    assert_eq!(result.conflicts.len(), 1);
    assert!(matches!(result.conflicts[0].kind, ConflictKind::SourceMismatch));
    assert_eq!(
        result.conflicts[0].to_string(),
        "来源冲突：包 \"lib\" 被多个依赖从不同来源引入：\n  - （已记录来源） 要求 /one\n  - root -> a -> lib 要求 /two\n"
    );
}

#[test]
fn bad_versions_are_a_conflict() {
    let root = manifest(
        "root",
        "0.1.0",
        vec![("a", path_dep("/a")), ("lib", versioned_path_dep("/lib", Some("^1")))],
    );
    let world = vec![
        ("/a", manifest("a", "1.0.0", vec![("lib", versioned_path_dep("/lib", Some("^2")))])),
        ("/lib", manifest("lib", "1.5.0", vec![])),
    ];
    let result = run(&root, &world).unwrap();
    assert_eq!(result.conflicts.len(), 1);
    assert!(matches!(result.conflicts[0].kind, ConflictKind::VersionIncompatible));
    assert_eq!(
        result.conflicts[0].to_string(),
        "版本冲突：包 \"lib\" 被多个依赖以不兼容的版本要求引入：\n  - root -> lib 要求 ^1\n  - root -> a -> lib 要求 ^2\n"
    );
}

#[test]
fn one_demand_alone_is_no_conflict() {
    let root = manifest("root", "0.1.0", vec![("lib", versioned_path_dep("/lib", Some("^9")))]);
    let world = vec![("/lib", manifest("lib", "1.5.0", vec![]))];
    assert!(run(&root, &world).unwrap().conflicts.is_empty());
}

#[test]
fn source_demands_rule_out_no_version() {
    let root = manifest("root", "0.1.0", vec![("a", path_dep("/a")), ("lib", path_dep("/lib"))]);
    let world = vec![
        ("/a", manifest("a", "1.0.0", vec![("lib", path_dep("/lib"))])),
        ("/lib", manifest("lib", "1.5.0", vec![])),
    ];
    assert!(run(&root, &world).unwrap().conflicts.is_empty());
}

#[test]
fn cycles_are_refused() {
    let root = manifest("root", "0.1.0", vec![("a", path_dep("/a")), ("ok", path_dep("/ok"))]);
    let world = vec![
        ("/a", manifest("a", "1.0.0", vec![("b", path_dep("/b"))])),
        ("/b", manifest("b", "1.0.0", vec![("a", path_dep("/a"))])),
    ];
    let e = run(&root, &world).unwrap_err();
    assert!(matches!(&e, ResolveError::Cycle(stuck) if stuck == &vec!["a".to_string(), "b".to_string()]));
    assert_eq!(e.message(), "检测到循环依赖，涉及包：a, b");
}

#[test]
fn registry_dependencies_are_refused() {
    let root = manifest("root", "0.1.0", vec![("r", DepSpec::VersionReq("^1".to_string()))]);
    let e = run(&root, &[]).unwrap_err();
    assert!(matches!(&e, ResolveError::Registry { name, chain } if name == "r" && chain == "root -> r"));
    assert_eq!(e.message(), "v0.3 原型暂不支持 registry 依赖（r），请使用 path 或 git");
}

#[test]
fn dependencies_need_a_source() {
    let root = manifest("root", "0.1.0", vec![("n", no_source())]);
    let e = run(&root, &[]).unwrap_err();
    assert!(matches!(&e, ResolveError::NoSource { .. }));
    assert_eq!(e.message(), "依赖 n 必须设置 path 或 git");
    assert_eq!(resolve_context("n", "root -> n"), "解析依赖 n 失败（来自 root -> n）");
}

#[test]
fn topological_order_is_fixed_by_the_packages() {
    let a = topological_sort(vec![node("d", &["b", "c"]), node("c", &["a"]), node("b", &["a"]), node("a", &[])]).unwrap();
    let b = topological_sort(vec![node("a", &[]), node("b", &["a"]), node("c", &["a"]), node("d", &["c", "b"])]).unwrap();
    assert_eq!(names(&a), vec!["a", "b", "c", "d"]);
    assert_eq!(names(&b), vec!["a", "b", "c", "d"]);
}

#[test]
fn topological_sort_goes_by_what_becomes_ready() {
    let sorted = topological_sort(vec![
        node("aa", &["z"]),
        node("z", &[]),
        node("b", &[]),
        node("c", &["b", "elsewhere"]),
    ])
    .unwrap();
    assert_eq!(names(&sorted), vec!["b", "z", "c", "aa"]);
    let e = topological_sort(vec![node("a", &["a"]), node("b", &[])]).unwrap_err();
    assert!(matches!(&e, ResolveError::Cycle(stuck) if stuck == &vec!["a".to_string()]));
}

#[test]
fn demands_as_text() {
    assert_eq!(dep_spec_to_req_string(&DepSpec::VersionReq("^1".to_string())), "^1");
    assert_eq!(dep_spec_to_req_string(&versioned_path_dep("../x", Some("1"))), "1");
    assert_eq!(dep_spec_to_req_string(&path_dep("../x")), "path:../x");
    assert_eq!(dep_spec_to_req_string(&git_dep("u", None, None, None)), "git+u#HEAD");
    assert_eq!(dep_spec_to_req_string(&git_dep("u", Some("r"), Some("t"), Some("b"))), "git+u#r");
    assert_eq!(dep_spec_to_req_string(&git_dep("u", None, Some("t"), Some("b"))), "git+u#t");
    assert_eq!(dep_spec_to_req_string(&no_source()), "*");
}

#[test]
fn sources_asked_for() {
    let path = source_request("n", &path_dep("../x"), "c").unwrap();
    assert!(matches!(&path, SourceRequest::Path { rel } if rel == "../x"));
    assert_eq!(dep_spec_to_package_id("n", &path, "/abs").source_fingerprint, "/abs");
    let git = source_request("n", &git_dep("u", None, None, Some("b")), "c").unwrap();
    assert!(matches!(&git, SourceRequest::Git { url, rev } if url == "u" && rev == "b"));
    assert_eq!(dep_spec_to_package_id("n", &git, "c0ffee").source_fingerprint, "u#c0ffee");
    assert_eq!(PackageId::for_git("n", "u", "c0ffee").name, "n");
}

#[test]
fn packages_found() {
    let declared = "0.9.0".to_string();
    let bare = resolve_path_dep("n", "/abs", Some(&declared), None);
    assert_eq!(bare.version, "0.9.0");
    assert_eq!(bare.direct_deps.len(), 0);
    let m = manifest("m", "2.0.0", vec![("d", path_dep("x"))]);
    let full = resolve_git_dep("n", "u", "c0ffee", Some(&declared), Some(&m));
    assert_eq!(full.version, "2.0.0");
    assert_eq!(full.direct_deps.name(0), "d");
    assert_eq!(full.id.source_fingerprint, "u#c0ffee");
    let locked = node_to_locked_package(&full, "sha".to_string());
    assert_eq!(locked.content_sha256, "sha");
    assert_eq!(locked.dependencies[0].name, "d");
    assert_eq!(locked.dependencies[0].version, "");
}

#[test]
fn directories_of_packages() {
    let root = FsPath::new("/root");
    let dir = repo_dir(&root, "https://x/y.git", "v1.0");
    assert_eq!(dir.parts[2], "git");
    assert_eq!(dir.parts[3], "https___x_y_git-v1_0");
    assert_eq!(node_base(&root, &ResolvedSource::Path { abs_path: "/abs".to_string() }).base, "/abs");
    let base = node_base(&root, &ResolvedSource::Git { url: "u".to_string(), rev: "c0ffee".to_string() });
    assert_eq!(base.parts, repo_dir(&root, "u", "c0ffee").parts);
    assert_eq!(base.parts[3], "u-c0ffee");
    assert_eq!(content_excludes(), vec![".neptune", "neptune.lock", "nelua_modules"]);
}

#[test]
fn version_conflict_from_given_answers() {
    let demands = || {
        vec![
            ConflictDemand { requester_chain: "root -> a".to_string(), version_req: "1".to_string() },
            ConflictDemand { requester_chain: "root -> b -> a".to_string(), version_req: "2".to_string() },
        ]
    };
    assert!(version_conflict_from("a", demands(), &vec![false, false]).is_none());
    let c: Conflict = version_conflict_from("a", demands(), &vec![false, true]).unwrap();
    assert_eq!(c.package_name, "a");
    assert_eq!(c.demands.len(), 2);
    let mut one = demands();
    one.pop();
    assert!(version_conflict_from("a", one, &vec![true]).is_none());
    assert!(find_version_conflicts(&vec![node("a", &[])], &vec![], &vec![]).is_empty());
}
