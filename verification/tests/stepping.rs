use neptune::doctor::{checks, show_check, verdict};
use neptune::git::{commit_of, GitAction, GitEvent, GitNext, GitPurpose, GitRun};
use neptune::walk::{Walk, WalkItem, WalkStep};

fn item(id: u64, name: &str) -> WalkItem {
    WalkItem { id, name: Some(name.to_string()), key: name.as_bytes().to_vec() }
}

// Walks a tree in which each directory, by id, has those children; odd ids of
// 100 and above are no regular files.
fn walk(root: (u64, &str), dirs: &[(u64, Vec<(u64, &str)>)], excludes: &[&str], only_files: bool) -> Vec<u64> {
    let mut w = Walk::new(item(root.0, root.1), excludes.iter().map(|s| s.to_string()).collect(), only_files);
    loop {
        let visit = match w.next() {
            WalkStep::Done(found) => return found.iter().map(|f| f.id).collect(),
            WalkStep::Visit(v) => v,
        };
        let id = visit.item().id;
        w = match dirs.iter().find(|d| d.0 == id) {
            Some(d) => {
                if visit.is_excluded() {
                    visit.skip()
                } else {
                    visit.dir(d.1.iter().map(|c| item(c.0, c.1)).collect())
                }
            }
            None => visit.leaf(id < 100 || id % 2 == 0),
        };
    }
}

#[test]
fn walk_lists_files_in_order() {
    let dirs = vec![
        (0, vec![(1, "src"), (2, "neptune.toml"), (3, ".neptune"), (4, "a.txt")]),
        (1, vec![(5, "z.nelua"), (6, "neptune.lock"), (7, "b.nelua")]),
        (3, vec![(8, "pkgs")]),
    ];
    assert_eq!(walk((0, "lib"), &dirs, &[], false), vec![8, 4, 2, 7, 6, 5]);
    assert_eq!(walk((0, "lib"), &dirs, &[".neptune", "neptune.lock"], false), vec![4, 2, 7, 5]);
}

#[test]
fn walk_keeps_where_it_begins() {
    let dirs = vec![(0, vec![(1, "a"), (2, ".neptune")]), (2, vec![(3, "b")])];
    assert_eq!(walk((0, ".neptune"), &dirs, &[".neptune"], false), vec![1]);
    assert_eq!(walk((0, "file"), &[], &["file"], false), vec![0]);
}

#[test]
fn walk_may_want_regular_files_only() {
    let dirs = vec![(0, vec![(101, "pipe"), (102, "text")])];
    assert_eq!(walk((0, "d"), &dirs, &[], false), vec![101, 102]);
    assert_eq!(walk((0, "d"), &dirs, &[], true), vec![102]);
}

#[test]
fn walk_keeps_items_without_a_text_name() {
    let w = Walk::new(WalkItem { id: 9, name: None, key: vec![0xff] }, vec!["x".to_string()], false);
    let w = match w.next() {
        WalkStep::Visit(v) => {
            assert!(!v.is_excluded());
            v.leaf(true)
        }
        WalkStep::Done(_) => panic!("nothing to visit"),
    };
    assert!(matches!(w.next(), WalkStep::Done(found) if found.len() == 1));
}

fn act(next: GitNext) -> GitRun {
    match next {
        GitNext::Act(run) => run,
        GitNext::Done => panic!("done"),
        GitNext::Stop(e) => panic!("{}", e.message()),
    }
}

fn stop(next: GitNext) -> String {
    match next {
        GitNext::Stop(e) => e.message(),
        _ => panic!("goes on"),
    }
}

#[test]
fn revision_is_cloned_and_looked_up() {
    let run = GitRun::start(GitPurpose::Resolve, "https://x", "main", false);
    assert_eq!(run.args(), vec!["clone", "https://x"]);
    let run = act(run.ended(GitEvent::Succeeded));
    assert_eq!(run.args(), vec!["checkout", "--quiet", "main"]);
    let run = act(run.ended(GitEvent::Succeeded));
    assert_eq!(run.args(), vec!["rev-parse", "HEAD"]);
    assert!(matches!(run.ended(GitEvent::Succeeded), GitNext::Done));
    assert_eq!(commit_of("c0ffee\n"), "c0ffee");
}

#[test]
fn missing_revision_is_fetched_once() {
    for fetched in [GitEvent::Succeeded, GitEvent::Failed, GitEvent::NotRun] {
        let run = GitRun::start(GitPurpose::Resolve, "u", "v9", true);
        assert_eq!(run.action, GitAction::Checkout);
        let run = act(run.ended(GitEvent::Failed));
        assert_eq!(run.args(), vec!["fetch", "--all", "--tags"]);
        let run = act(run.ended(fetched));
        assert_eq!(run.action, GitAction::Retry);
        assert_eq!(run.args(), vec!["checkout", "--quiet", "v9"]);
        assert_eq!(stop(run.ended(GitEvent::Failed)), "git checkout 失败：rev/tag/branch \"v9\" 不存在");
    }
}

#[test]
fn known_commit_is_not_looked_for() {
    let run = GitRun::start(GitPurpose::Install, "u", "c0ffee", false);
    let run = act(run.ended(GitEvent::Succeeded));
    assert!(matches!(run.ended(GitEvent::Succeeded), GitNext::Done));
    let run = GitRun::start(GitPurpose::Install, "u", "c0ffee", true);
    assert_eq!(stop(run.ended(GitEvent::Failed)), "git checkout 失败: commit \"c0ffee\" 不存在");
}

#[test]
fn git_faults() {
    let start = |exists| GitRun::start(GitPurpose::Resolve, "u", "r", exists);
    assert_eq!(
        stop(start(false).ended(GitEvent::NotRun)),
        "执行 git clone 失败（请确认已安装 git 且网络可用）"
    );
    assert_eq!(stop(start(false).ended(GitEvent::Failed)), "git clone 失败: u");
    assert_eq!(stop(start(true).ended(GitEvent::NotRun)), "执行 git checkout 失败");
    let retry = || act(act(start(true).ended(GitEvent::Failed)).ended(GitEvent::Succeeded));
    assert_eq!(stop(retry().ended(GitEvent::NotRun)), "执行 git checkout（fetch 后重试）失败");
    let parse = || act(retry().ended(GitEvent::Succeeded));
    assert_eq!(stop(parse().ended(GitEvent::NotRun)), "执行 git rev-parse HEAD 失败");
    assert_eq!(stop(parse().ended(GitEvent::Failed)), "git rev-parse HEAD 失败");
}

#[test]
fn tools_are_reported() {
    let list = checks();
    let cmds: Vec<&str> = list.iter().map(|c| c.cmd.as_str()).collect();
    assert_eq!(cmds, vec!["nelua", "git", "cc", "pkg-config"]);
    assert_eq!(show_check(&list[1], Some("git version 2.43.0\r\nmore\n")), "  ✓ Git 版本控制 - git version 2.43.0");
    assert_eq!(show_check(&list[0], Some("")), "  ✓ Nelua 编译器 - (版本未知)");
    assert_eq!(show_check(&list[0], Some("\nx")), "  ✓ Nelua 编译器 - ");
    assert_eq!(show_check(&list[2], None), "  ✗ C 编译器（用于 Nelua 编译） - 未找到（cc）");
    assert_eq!(verdict(&vec![true, true]), "✓ 所有检查通过！");
    assert_eq!(verdict(&vec![true, false]), "⚠ 部分工具未找到，请根据提示安装缺失的依赖。");
}
