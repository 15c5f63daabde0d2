use neptune::fs::{
    copy_action, find_pkg_dir, first_child_dir, first_link, list_child_dirs, next_link, remove_if_exists, Child,
    CopyAction, LinkNext, LinkStep, Platform, Removal,
};
use neptune::graph::build_order;
use neptune::order::{link, marks, position_of};
use neptune::paths::{
    bin_dir, git_cache_dir, modules_dir, path_bootstrap_file, pkgs_dir, project_dir, FsPath, LOCK_FILE, MANIFEST_FILE,
};
use neptune::resolver::compute_path_content_hash;
use neptune::sort::{sort_by_key, sort_positions};
use neptune::text::{
    blank, bytes_less, cut_text, is_cuttable, join_strings, same_text, sanitize, trimmed, write_decimal,
};
use neptune::util::{dir_bytes, sha256_of_bytes, sha256_of_dir, FileEntry};
use neptune::version::{rules_out, Version, VersionReq};

fn strings(list: &[&str]) -> Vec<String> {
    list.iter().map(|s| s.to_string()).collect()
}

fn entry(rel: &str, data: &[u8]) -> FileEntry {
    FileEntry { rel: rel.to_string(), data: data.to_vec() }
}

fn child(id: u64, name: &str, is_dir: bool) -> Child {
    Child { id, name: name.as_bytes().to_vec(), is_dir }
}

#[test]
fn project_paths() {
    let root = FsPath::new("/p");
    assert_eq!(project_dir(&root).parts, strings(&[".neptune"]));
    assert_eq!(pkgs_dir(&root).parts, strings(&[".neptune", "pkgs"]));
    assert_eq!(bin_dir(&root).parts, strings(&[".neptune", "bin"]));
    assert_eq!(modules_dir(&root).parts, strings(&["nelua_modules"]));
    assert_eq!(path_bootstrap_file(&root).parts, strings(&["neptune_path.lua"]));
    assert_eq!(git_cache_dir(&root).parts, strings(&[".neptune", "cache", "git"]));
    assert_eq!(git_cache_dir(&root).base, "/p");
    assert_eq!(MANIFEST_FILE, "neptune.toml");
    assert_eq!(LOCK_FILE, "neptune.lock");
}

#[test]
fn sanitizing_keeps_plain_characters() {
    assert_eq!(sanitize("https://x.org/a_b-C9.git"), "https___x_org_a_b-C9_git");
    assert_eq!(sanitize("分支"), "__");
    assert_eq!(sanitize(&sanitize("a/b c")), "a_b_c");
    assert_eq!(sanitize(""), "");
}

#[test]
fn trimming_and_blanks() {
    assert_eq!(trimmed("  a b\r\n"), "a b");
    assert_eq!(trimmed("\u{3000}x\u{a0}"), "x");
    assert_eq!(trimmed(" \t"), "");
    assert!(blank(""));
    assert!(blank(" \u{2003}\n"));
    assert!(!blank(" x"));
}

#[test]
fn cutting_at_bytes() {
    assert_eq!(cut_text("0123456789", 8), "01234567");
    assert_eq!(cut_text("0123", 8), "0123");
    assert_eq!(cut_text("é23456789", 8), "é234567");
    assert!(is_cuttable("0123", 8));
    assert!(!is_cuttable("1234567é", 8));
}

#[test]
fn small_texts() {
    assert_eq!(write_decimal(0), "0");
    assert_eq!(write_decimal(10), "10");
    assert_eq!(write_decimal(90817), "90817");
    assert_eq!(join_strings(&strings(&["a", "b", "c"]), ", "), "a, b, c");
    assert_eq!(join_strings(&strings(&[]), ", "), "");
    assert!(same_text("é", "é"));
    assert!(!same_text("a", "ab"));
    assert!(bytes_less(b"a", b"ab"));
    assert!(bytes_less(b"Z", b"a"));
    assert!(!bytes_less(b"a", b"a"));
}

#[test]
fn sha256_of_known_texts() {
    assert_eq!(sha256_of_bytes(b""), "e3b0c44298fc1c149afbf4c8996fb92427ae41e4649b934ca495991b7852b855");
    assert_eq!(sha256_of_bytes(b"abc"), "ba7816bf8f01cfea414140de5dae2223b00361a396177a9cb410ff61f20015ad");
}

#[test]
fn directory_hash_does_not_depend_on_listing_order() {
    let a = sha256_of_dir(vec![entry("src/a.nelua", b"x"), entry("neptune.toml", b"name")]);
    let b = sha256_of_dir(vec![entry("neptune.toml", b"name"), entry("src/a.nelua", b"x")]);
    assert_eq!(a, b);
    assert_eq!(a, "1f2c27d9787877c2f57f65d19f25739875fe84ef3e1990687f187af30b249264");
    assert_eq!(dir_bytes(vec![entry("b", b"2"), entry("a", b"1")]), b"a\x001\x00b\x002\x00".to_vec());
    assert_eq!(sha256_of_dir(vec![]), sha256_of_bytes(b""));
}

#[test]
fn content_hash_follows_the_files() {
    assert_eq!(
        compute_path_content_hash(vec![entry("src/a.nelua", b"x"), entry("neptune.toml", b"name")]),
        "1f2c27d9787877c2f57f65d19f25739875fe84ef3e1990687f187af30b249264"
    );
    let before = compute_path_content_hash(vec![entry("a.nelua", b"x")]);
    assert_eq!(before, sha256_of_bytes(b"a.nelua\0x\0"));
    assert_ne!(before, compute_path_content_hash(vec![entry("a.nelua", b"y")]));
}

#[test]
fn versions_and_requirements() {
    assert!(Version::parse("1.2.3").is_some());
    assert!(Version::parse("1.2").is_none());
    assert!(VersionReq::parse("^1.2").is_some());
    assert!(VersionReq::parse("x").is_some());
    assert!(VersionReq::parse("path:../a").is_none());
    assert!(VersionReq::parse("git+https://x#HEAD").is_none());
    let req = VersionReq::parse(">=1.2, <2").unwrap();
    assert!(req.matches(&Version::parse("1.9.0").unwrap()));
    assert!(!req.matches(&Version::parse("2.0.0").unwrap()));
    assert!(rules_out("^1", "2.0.0"));
    assert!(!rules_out("^1", "1.5.0"));
    assert!(!rules_out("path:../a", "2.0.0"));
    assert!(!rules_out("^1", "not a version"));
}

fn sorted_entries(list: &[(&str, u8)]) -> Vec<(String, u8)> {
    let entries = list.iter().map(|w| entry(w.0, &[w.1])).collect();
    sort_by_key(entries).into_iter().map(|e: FileEntry| (e.rel, e.data[0])).collect()
}

#[test]
fn sorting_is_stable() {
    let once = sorted_entries(&[("b", 0), ("a", 1), ("b", 2), ("a", 3), ("", 4)]);
    let want: Vec<(String, u8)> =
        [("", 4), ("a", 1), ("a", 3), ("b", 0), ("b", 2)].iter().map(|w| (w.0.to_string(), w.1)).collect();
    assert_eq!(once, want);
    let again: Vec<(&str, u8)> = once.iter().map(|w| (w.0.as_str(), w.1)).collect();
    assert_eq!(sorted_entries(&again), want);
}

#[test]
fn build_order_leaves_cycles_out() {
    let names = strings(&["app", "lib", "base", "loop-a", "loop-b", "user"]);
    let deps = vec![
        strings(&["lib", "base"]),
        strings(&["base", "absent"]),
        strings(&[]),
        strings(&["loop-b"]),
        strings(&["loop-a"]),
        strings(&["loop-a"]),
    ];
    let by_name = sort_positions(&names);
    assert_eq!(by_name, vec![0, 2, 1, 3, 4, 5]);
    assert_eq!(position_of(&names, &by_name, "base"), Some(2));
    assert_eq!(position_of(&names, &by_name, "user"), Some(5));
    assert_eq!(position_of(&names, &by_name, "absent"), None);
    let twice = strings(&["b", "a", "b", "a"]);
    assert_eq!(position_of(&twice, &sort_positions(&twice), "b"), Some(0));
    assert_eq!(position_of(&twice, &sort_positions(&twice), "a"), Some(1));
    assert_eq!(marks(&vec![2, 0], 4), vec![true, false, true, false]);
    let adj = link(&names, &deps);
    assert_eq!(adj[0], vec![1, 2]);
    assert_eq!(adj[1], vec![2]);
    assert_eq!(build_order(&names, &adj), vec![2, 1, 0]);
}

#[test]
fn child_directories_by_name() {
    let children = vec![child(1, "zeta", true), child(2, "alpha", false), child(3, "beta", true)];
    let ids: Vec<u64> = list_child_dirs(&children).iter().map(|c| c.id).collect();
    assert_eq!(ids, vec![3, 1]);
    assert_eq!(first_child_dir(&children).unwrap().id, 3);
    assert!(first_child_dir(&vec![child(1, "a", false)]).is_none());
}

#[test]
fn package_directory_is_found_by_id() {
    let dir = find_pkg_dir(&FsPath::new("/pkgs"), "lib", "path-0011", true).unwrap();
    assert_eq!(dir.base, "/pkgs");
    assert_eq!(dir.parts, strings(&["lib", "path-0011"]));
    assert!(find_pkg_dir(&FsPath::new("/pkgs"), "lib", "path-0011", false).is_none());
}

#[test]
fn links_fall_back() {
    assert_eq!(first_link(Platform::Unix), LinkStep::Symlink);
    assert_eq!(first_link(Platform::Other), LinkStep::Copy);
    assert_eq!(next_link(Platform::Unix, LinkStep::Symlink, true), LinkNext::Linked);
    assert_eq!(next_link(Platform::Unix, LinkStep::Symlink, false), LinkNext::Failed);
    assert_eq!(next_link(Platform::Windows, LinkStep::Symlink, false), LinkNext::Attempt(LinkStep::Junction));
    assert_eq!(next_link(Platform::Windows, LinkStep::Junction, false), LinkNext::Attempt(LinkStep::Copy));
}

#[test]
fn removing_and_copying() {
    assert_eq!(remove_if_exists(false, false, false), Removal::Nothing);
    assert_eq!(remove_if_exists(true, true, false), Removal::Tree);
    assert_eq!(remove_if_exists(true, true, true), Removal::File);
    assert_eq!(remove_if_exists(true, false, false), Removal::File);
    assert_eq!(copy_action(true, false), CopyAction::Tree);
    assert_eq!(copy_action(false, true), CopyAction::File);
    assert_eq!(copy_action(false, false), CopyAction::Skip);
}
