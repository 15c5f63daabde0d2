use neptune::lockfile::{LockError, LockedDep, LockedPackage, LockedSource, Lockfile, LOCK_VERSION};
use neptune::manifest::{check_dep, init_manifest, start_project, DepMap, DepSpec, Entry, Manifest, ManifestError};

fn detailed(version: Option<&str>, git: Option<&str>, path: Option<&str>, pins: [Option<&str>; 3]) -> DepSpec {
    DepSpec::Detailed {
        version: version.map(|s| s.to_string()),
        git: git.map(|s| s.to_string()),
        rev: pins[0].map(|s| s.to_string()),
        tag: pins[1].map(|s| s.to_string()),
        branch: pins[2].map(|s| s.to_string()),
        path: path.map(|s| s.to_string()),
        registry: None,
        optional: None,
    }
}

fn manifest() -> Manifest {
    init_manifest(Some("my-project".to_string()), None, None, None)
}

fn package(name: &str) -> LockedPackage {
    LockedPackage {
        name: name.to_string(),
        version: "1.0.0".to_string(),
        source: LockedSource::Path { path: format!("/src/{}", name) },
        content_sha256: "0011223344".to_string(),
        dependencies: vec![LockedDep { name: "dep".to_string(), version: "2.0.0".to_string() }],
    }
}

fn lockfile(names: &[&str]) -> Lockfile {
    Lockfile {
        lock_version: LOCK_VERSION,
        manifest_sha256: "abcd".to_string(),
        packages: names.iter().map(|n| package(n)).collect(),
    }
}

#[test]
fn new_manifest_takes_names_in_turn() {
    let m = init_manifest(Some("given".to_string()), Some("dir".to_string()), None, Some("src/lib.nelua".to_string()));
    assert_eq!(m.name, "given");
    assert_eq!(m.version, "0.1.0");
    assert_eq!(m.description.as_deref(), Some("A Neptune project"));
    assert_eq!(m.license.as_deref(), Some("MIT"));
    assert_eq!(m.entry.app.as_deref(), Some("src/main.nelua"));
    assert_eq!(m.entry.lib.as_deref(), Some("src/lib.nelua"));
    assert!(m.validate().is_ok());
    let m = init_manifest(None, Some("dir".to_string()), Some("main.nelua".to_string()), None);
    assert_eq!(m.name, "dir");
    assert_eq!(m.entry.app.as_deref(), Some("main.nelua"));
    assert_eq!(init_manifest(None, None, None, None).name, "neptune-project");
    assert!(init_manifest(None, Some("My Dir".to_string()), None, None).validate().is_err());
}

#[test]
fn project_starts_under_a_good_name() {
    let m = start_project(Some("lib-1".to_string()), None, None, None).unwrap();
    assert_eq!(m.name, "lib-1");
    assert_eq!(m.dependencies.len(), 0);
    let e = start_project(None, Some("My Dir".to_string()), None, None).unwrap_err();
    assert!(matches!(&e, ManifestError::BadName(n) if n == "My Dir"));
    assert!(matches!(start_project(Some("".to_string()), None, None, None), Err(ManifestError::EmptyName)));
}

#[test]
fn manifest_name_is_checked() {
    let mut m = manifest();
    m.name = " ".to_string();
    let e = m.validate().unwrap_err();
    assert!(matches!(e, ManifestError::EmptyName));
    assert_eq!(e.message(), "manifest.name 不能为空");
    m.name = "Upper".to_string();
    let e = m.validate().unwrap_err();
    assert!(matches!(&e, ManifestError::BadName(n) if n == "Upper"));
    assert_eq!(e.message(), "manifest.name 只能包含小写字母/数字/连字符(-): Upper");
    m.name = "a-0".to_string();
    assert!(m.validate().is_ok());
}

#[test]
fn manifest_version_is_checked() {
    let mut m = manifest();
    m.version = "1.0".to_string();
    let e = m.validate().unwrap_err();
    assert!(matches!(&e, ManifestError::BadVersion(v) if v == "1.0"));
    assert_eq!(e.message(), "manifest.version 不是合法 semver: 1.0");
    m.version = "1.0.0-rc.1".to_string();
    assert!(m.validate().is_ok());
}

#[test]
fn manifest_needs_an_entry() {
    let mut m = manifest();
    m.entry = Entry::default();
    let e = m.validate().unwrap_err();
    assert!(matches!(e, ManifestError::NoEntry));
    assert_eq!(e.message(), "[entry] 至少需要 app 或 lib 之一");
    m.entry = Entry { app: None, lib: Some("src/lib.nelua".to_string()) };
    assert!(m.validate().is_ok());
}

#[test]
fn dependencies_are_checked_in_order() {
    let mut m = manifest();
    m.dev_dependencies.insert("z".to_string(), DepSpec::VersionReq("also bad".to_string()));
    m.dependencies.insert("b".to_string(), DepSpec::VersionReq("not a req".to_string()));
    m.dependencies.insert("a".to_string(), DepSpec::VersionReq("^1".to_string()));
    let e = m.validate().unwrap_err();
    assert!(matches!(&e, ManifestError::BadRequirement { dep, req } if dep == "b" && req == "not a req"));
    assert_eq!(e.message(), "依赖 b 的版本范围不合法: not a req");
    m.dependencies.insert("b".to_string(), DepSpec::VersionReq("*".to_string()));
    let e = m.validate().unwrap_err();
    assert!(matches!(&e, ManifestError::BadRequirement { dep, .. } if dep == "z"));
    m.dev_dependencies.insert("z".to_string(), detailed(None, None, Some("../z"), [None; 3]));
    assert!(m.validate().is_ok());
}

#[test]
fn faults_of_a_dependency() {
    let ok = detailed(Some("^1"), Some("u"), None, [None, Some("t"), None]);
    assert!(check_dep("d", &ok, true).is_ok());
    assert!(matches!(check_dep(" ", &ok, true), Err(ManifestError::EmptyDepName)));
    assert_eq!(check_dep("", &ok, true).unwrap_err().message(), "依赖名不能为空");
    assert!(matches!(check_dep("d", &ok, false), Err(ManifestError::BadRequirement { .. })));
    let both = detailed(None, Some("u"), Some("p"), [None; 3]);
    assert_eq!(check_dep("d", &both, true).unwrap_err().message(), "依赖 d 不能同时设置 git 与 path");
    let pins = detailed(None, Some("u"), None, [Some("r"), None, Some("b")]);
    assert_eq!(check_dep("d", &pins, true).unwrap_err().message(), "依赖 d 的 rev/tag/branch 只能设置一个");
    assert!(matches!(check_dep("d", &pins, true), Err(ManifestError::SeveralPins(_))));
    assert!(matches!(check_dep("d", &both, true), Err(ManifestError::GitAndPath(_))));
}

#[test]
fn validation_with_given_answers() {
    let mut m = manifest();
    m.dependencies.insert("a".to_string(), DepSpec::VersionReq("anything".to_string()));
    assert!(m.validate_with(true, &vec![true]).is_ok());
    assert!(matches!(m.validate_with(false, &vec![true]), Err(ManifestError::BadVersion(_))));
    assert!(matches!(m.validate_with(true, &vec![false]), Err(ManifestError::BadRequirement { .. })));
}

#[test]
fn stated_requirements() {
    assert!(DepSpec::VersionReq("^1".to_string()).as_version_req().is_some());
    assert!(DepSpec::VersionReq("?".to_string()).as_version_req().is_none());
    assert!(detailed(Some("1.2"), None, None, [None; 3]).as_version_req().is_some());
    assert!(detailed(None, Some("u"), None, [None; 3]).as_version_req().is_none());
}

#[test]
fn dependency_maps_are_ordered_by_name() {
    let mut deps = DepMap::new();
    for name in ["b", "a", "c", "b"] {
        deps.insert(name.to_string(), DepSpec::VersionReq(format!("{}-{}", name, deps.len())));
    }
    let names: Vec<&str> = (0..deps.len()).map(|i| deps.name(i).as_str()).collect();
    assert_eq!(names, vec!["a", "b", "c"]);
    assert!(matches!(deps.dep(1), DepSpec::VersionReq(v) if v == "b-3"));
}

#[test]
fn lockfile_fits_its_manifest() {
    let mut lock = lockfile(&["a"]);
    assert!(lock.is_up_to_date("abcd"));
    assert!(!lock.is_up_to_date("abce"));
    lock.lock_version = 1;
    assert!(!lock.is_up_to_date("abcd"));
    assert!(lock.validate().is_ok());
}

#[test]
fn lockfile_faults() {
    let mut lock = lockfile(&["a", "b"]);
    assert!(lock.validate().is_ok());
    lock.lock_version = 0;
    assert_eq!(lock.validate().unwrap_err().message(), "lockfile lock_version 不合法");
    let mut lock = lockfile(&["a", "b"]);
    lock.manifest_sha256 = String::new();
    assert_eq!(lock.validate().unwrap_err().message(), "lockfile manifest_sha256 为空");
    let mut lock = lockfile(&["a", "b"]);
    lock.packages[1].version = String::new();
    assert_eq!(lock.validate().unwrap_err().message(), "lockfile 中包 b 的 version 为空");
    lock.packages[0].content_sha256 = String::new();
    let e = lock.validate().unwrap_err();
    assert!(matches!(&e, LockError::EmptyContentSha(n) if n == "a"));
    assert_eq!(
        e.message(),
        "lockfile 中包 a 的 content_sha256 为空（请删除 neptune.lock 并重新运行 npt install）"
    );
    lock.packages[0].name = String::new();
    assert_eq!(lock.validate().unwrap_err().message(), "lockfile 中存在 name 为空的包");
}

#[test]
fn written_lockfile_is_sorted() {
    let lock = lockfile(&["b", "c", "a"]).sorted();
    let names: Vec<&str> = lock.packages.iter().map(|p| p.name.as_str()).collect();
    assert_eq!(names, vec!["a", "b", "c"]);
    assert_eq!(lock.packages[0].dependencies[0].version, "2.0.0");
    let again = lock.sorted();
    let names: Vec<&str> = again.packages.iter().map(|p| p.name.as_str()).collect();
    assert_eq!(names, vec!["a", "b", "c"]);
    assert!(again.is_up_to_date("abcd"));
}
