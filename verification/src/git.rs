//! What Git is asked to do, step by step. The caller runs Git; what it is
//! asked next, and what follows from how it ended, is decided here.
use vstd::prelude::*;
use vstd::string::*;

use crate::text::{is_white, law_trimmed, lemma_tells, tells, trim_end, trim_start, trimmed, views, Text};

verus! {

/// Why a repository is wanted.
#[derive(Debug, Clone, Copy, PartialEq, Eq, Structural)]
pub enum GitPurpose {
    /// To find the commit that a revision stands for.
    Resolve,
    /// To have the files of a known commit.
    Install,
}

/// What Git is asked to do.
#[derive(Debug, Clone, Copy, PartialEq, Eq, Structural)]
pub enum GitAction {
    Clone,
    Checkout,
    Fetch,
    /// To check out once more, now that everything is fetched.
    Retry,
    RevParse,
}

/// How Git ended.
#[derive(Debug, Clone, Copy, PartialEq, Eq, Structural)]
pub enum GitEvent {
    /// It could not be run.
    NotRun,
    Succeeded,
    Failed,
}

/// Why a repository cannot be had.
#[derive(Debug)]
pub enum GitError {
    CloneNotRun,
    CloneFailed(String),
    CheckoutNotRun,
    RetryNotRun,
    NoSuchRev(String),
    NoSuchCommit(String),
    RevParseNotRun,
    RevParseFailed,
}

#[verifier::ext_equal]
pub enum GitErrorView {
    CloneNotRun,
    CloneFailed(Text),
    CheckoutNotRun,
    RetryNotRun,
    NoSuchRev(Text),
    NoSuchCommit(Text),
    RevParseNotRun,
    RevParseFailed,
}

impl View for GitError {
    type V = GitErrorView;

    open spec fn view(&self) -> GitErrorView {
        match *self {
            GitError::CloneNotRun => GitErrorView::CloneNotRun,
            GitError::CloneFailed(url) => GitErrorView::CloneFailed(url@),
            GitError::CheckoutNotRun => GitErrorView::CheckoutNotRun,
            GitError::RetryNotRun => GitErrorView::RetryNotRun,
            GitError::NoSuchRev(rev) => GitErrorView::NoSuchRev(rev@),
            GitError::NoSuchCommit(rev) => GitErrorView::NoSuchCommit(rev@),
            GitError::RevParseNotRun => GitErrorView::RevParseNotRun,
            GitError::RevParseFailed => GitErrorView::RevParseFailed,
        }
    }
}

impl GitErrorView {
    /// The message for the user.
    pub open spec fn text(self) -> Text {
        match self {
            GitErrorView::CloneNotRun => "执行 git clone 失败（请确认已安装 git 且网络可用）"@,
            GitErrorView::CloneFailed(url) => "git clone 失败: "@ + url,
            GitErrorView::CheckoutNotRun => "执行 git checkout 失败"@,
            GitErrorView::RetryNotRun => "执行 git checkout（fetch 后重试）失败"@,
            GitErrorView::NoSuchRev(rev) => "git checkout 失败：rev/tag/branch \""@ + rev + "\" 不存在"@,
            GitErrorView::NoSuchCommit(rev) => "git checkout 失败: commit \""@ + rev + "\" 不存在"@,
            GitErrorView::RevParseNotRun => "执行 git rev-parse HEAD 失败"@,
            GitErrorView::RevParseFailed => "git rev-parse HEAD 失败"@,
        }
    }
}

impl GitError {
    /// The message for the user.
    pub fn message(&self) -> (text: String)
        ensures
            text@ == self@.text(),
    {
        match self {
            GitError::CloneNotRun => String::from_str("执行 git clone 失败（请确认已安装 git 且网络可用）"),
            GitError::CloneFailed(url) => String::from_str("git clone 失败: ").concat(url.as_str()),
            GitError::CheckoutNotRun => String::from_str("执行 git checkout 失败"),
            GitError::RetryNotRun => String::from_str("执行 git checkout（fetch 后重试）失败"),
            GitError::NoSuchRev(rev) => String::from_str("git checkout 失败：rev/tag/branch \"").concat(
                rev.as_str(),
            ).concat("\" 不存在"),
            GitError::NoSuchCommit(rev) => String::from_str("git checkout 失败: commit \"").concat(rev.as_str()).concat(
                "\" 不存在",
            ),
            GitError::RevParseNotRun => String::from_str("执行 git rev-parse HEAD 失败"),
            GitError::RevParseFailed => String::from_str("git rev-parse HEAD 失败"),
        }
    }
}

/// What comes after an action.
pub enum GitNextView {
    Act(GitAction),
    Done,
    Stop(GitErrorView),
}

/// A run of Git on a repository.
#[derive(Debug)]
pub struct GitRun {
    pub purpose: GitPurpose,
    pub url: String,
    pub rev: String,
    /// What Git is to do now.
    pub action: GitAction,
}

#[verifier::ext_equal]
pub struct GitRunView {
    pub purpose: GitPurpose,
    pub url: Text,
    pub rev: Text,
    pub action: GitAction,
}

impl View for GitRun {
    type V = GitRunView;

    open spec fn view(&self) -> GitRunView {
        GitRunView { purpose: self.purpose, url: self.url@, rev: self.rev@, action: self.action }
    }
}

/// What comes after an action that ended like that. A checkout that fails is
/// tried again after fetching everything, where a revision is looked for; how
/// fetching ended does not matter. A commit that is known is not looked for.
pub open spec fn git_next(run: GitRunView, event: GitEvent) -> GitNextView {
    match run.action {
        GitAction::Clone => match event {
            GitEvent::NotRun => GitNextView::Stop(GitErrorView::CloneNotRun),
            GitEvent::Failed => GitNextView::Stop(GitErrorView::CloneFailed(run.url)),
            GitEvent::Succeeded => GitNextView::Act(GitAction::Checkout),
        },
        GitAction::Checkout => match event {
            GitEvent::NotRun => GitNextView::Stop(GitErrorView::CheckoutNotRun),
            GitEvent::Failed => match run.purpose {
                GitPurpose::Resolve => GitNextView::Act(GitAction::Fetch),
                GitPurpose::Install => GitNextView::Stop(GitErrorView::NoSuchCommit(run.rev)),
            },
            GitEvent::Succeeded => match run.purpose {
                GitPurpose::Resolve => GitNextView::Act(GitAction::RevParse),
                GitPurpose::Install => GitNextView::Done,
            },
        },
        GitAction::Fetch => GitNextView::Act(GitAction::Retry),
        GitAction::Retry => match event {
            GitEvent::NotRun => GitNextView::Stop(GitErrorView::RetryNotRun),
            GitEvent::Failed => GitNextView::Stop(GitErrorView::NoSuchRev(run.rev)),
            GitEvent::Succeeded => GitNextView::Act(GitAction::RevParse),
        },
        GitAction::RevParse => match event {
            GitEvent::NotRun => GitNextView::Stop(GitErrorView::RevParseNotRun),
            GitEvent::Failed => GitNextView::Stop(GitErrorView::RevParseFailed),
            GitEvent::Succeeded => GitNextView::Done,
        },
    }
}

/// What comes after an action.
pub enum GitNext {
    /// Git is to do something else.
    Act(GitRun),
    /// The repository is there.
    Done,
    /// The repository cannot be had.
    Stop(GitError),
}

/// What Git is asked to do first: a repository that is not there is cloned.
pub open spec fn first_action(repo_exists: bool) -> GitAction {
    if repo_exists {
        GitAction::Checkout
    } else {
        GitAction::Clone
    }
}

/// The arguments for an action.
pub open spec fn args_view(run: GitRunView) -> Seq<Text> {
    match run.action {
        GitAction::Clone => seq!["clone"@, run.url],
        GitAction::Checkout | GitAction::Retry => seq!["checkout"@, "--quiet"@, run.rev],
        GitAction::Fetch => seq!["fetch"@, "--all"@, "--tags"@],
        GitAction::RevParse => seq!["rev-parse"@, "HEAD"@],
    }
}

fn texts(a: &str, b: &str, c: Option<&str>) -> (list: Vec<String>)
    ensures
        match c {
            Some(t) => views(list@) == seq![a@, b@, t@],
            None => views(list@) == seq![a@, b@],
        },
{
    let mut list: Vec<String> = Vec::new();
    list.push(String::from_str(a));
    list.push(String::from_str(b));
    match c {
        Some(t) => {
            list.push(String::from_str(t));
            assert(views(list@) =~= seq![a@, b@, t@]);
        },
        None => {
            assert(views(list@) =~= seq![a@, b@]);
        },
    }
    list
}

impl GitRun {
    /// Begins with a repository that is there already or is not.
    pub fn start(purpose: GitPurpose, url: &str, rev: &str, repo_exists: bool) -> (run: GitRun)
        ensures
            run@ == (GitRunView { purpose, url: url@, rev: rev@, action: first_action(repo_exists) }),
    {
        let action = if repo_exists {
            GitAction::Checkout
        } else {
            GitAction::Clone
        };
        GitRun { purpose, url: String::from_str(url), rev: String::from_str(rev), action }
    }

    /// The arguments that Git is run with. To clone, the directory follows
    /// them; for anything else Git is run in the directory.
    pub fn args(&self) -> (args: Vec<String>)
        ensures
            views(args@) == args_view(self@),
    {
        match self.action {
            GitAction::Clone => texts("clone", self.url.as_str(), None),
            GitAction::Checkout => texts("checkout", "--quiet", Some(self.rev.as_str())),
            GitAction::Retry => texts("checkout", "--quiet", Some(self.rev.as_str())),
            GitAction::Fetch => texts("fetch", "--all", Some("--tags")),
            GitAction::RevParse => texts("rev-parse", "HEAD", None),
        }
    }

    fn with(self, action: GitAction) -> (next: GitNext)
        ensures
            next matches GitNext::Act(run) && run@ == (GitRunView { action, ..self@ }),
    {
        GitNext::Act(GitRun { purpose: self.purpose, url: self.url, rev: self.rev, action })
    }

    /// Goes on after the action ended.
    pub fn ended(self, event: GitEvent) -> (next: GitNext)
        ensures
            match next {
                GitNext::Act(run) => git_next(self@, event) == GitNextView::Act(run@.action) && run@ == (GitRunView {
                    action: run@.action,
                    ..self@
                }),
                GitNext::Done => git_next(self@, event) == GitNextView::Done,
                GitNext::Stop(e) => git_next(self@, event) == GitNextView::Stop(e@),
            },
    {
        match self.action {
            GitAction::Clone => match event {
                GitEvent::NotRun => GitNext::Stop(GitError::CloneNotRun),
                GitEvent::Failed => GitNext::Stop(GitError::CloneFailed(self.url)),
                GitEvent::Succeeded => self.with(GitAction::Checkout),
            },
            GitAction::Checkout => match event {
                GitEvent::NotRun => GitNext::Stop(GitError::CheckoutNotRun),
                GitEvent::Failed => match self.purpose {
                    GitPurpose::Resolve => self.with(GitAction::Fetch),
                    GitPurpose::Install => GitNext::Stop(GitError::NoSuchCommit(self.rev)),
                },
                GitEvent::Succeeded => match self.purpose {
                    GitPurpose::Resolve => self.with(GitAction::RevParse),
                    GitPurpose::Install => GitNext::Done,
                },
            },
            GitAction::Fetch => self.with(GitAction::Retry),
            GitAction::Retry => match event {
                GitEvent::NotRun => GitNext::Stop(GitError::RetryNotRun),
                GitEvent::Failed => GitNext::Stop(GitError::NoSuchRev(self.rev)),
                GitEvent::Succeeded => self.with(GitAction::RevParse),
            },
            GitAction::RevParse => match event {
                GitEvent::NotRun => GitNext::Stop(GitError::RevParseNotRun),
                GitEvent::Failed => GitNext::Stop(GitError::RevParseFailed),
                GitEvent::Succeeded => GitNext::Done,
            },
        }
    }
}

/// The commit that `git rev-parse` printed.
pub fn commit_of(printed: &str) -> (commit: String)
    ensures
        commit@ == trim_end(trim_start(printed@)),
{
    trimmed(printed)
}

/// How many actions can still follow, counting this one.
pub open spec fn actions_left(action: GitAction) -> int {
    match action {
        GitAction::Clone => 5,
        GitAction::Checkout => 4,
        GitAction::Fetch => 3,
        GitAction::Retry => 2,
        GitAction::RevParse => 1,
    }
}

/// Git is asked at most five times: each action leaves fewer to follow.
pub proof fn law_git_ends(run: GitRunView, event: GitEvent)
    ensures
        git_next(run, event) matches GitNextView::Act(action) ==> 0 < actions_left(action) < actions_left(run.action),
        actions_left(run.action) <= 5,
{
}

/// A revision is looked up only once it is checked out, and a repository is
/// there only once that is done: for a known commit, once it is checked out.
pub proof fn law_git_done(run: GitRunView, event: GitEvent)
    ensures
        git_next(run, event) == GitNextView::Act(GitAction::RevParse) ==> (run.action == GitAction::Checkout || run.action
            == GitAction::Retry) && event == GitEvent::Succeeded,
        git_next(run, event) == GitNextView::Done ==> event == GitEvent::Succeeded && (run.action == GitAction::RevParse
            || run.action == GitAction::Checkout && run.purpose == GitPurpose::Install),
        run.action != GitAction::Fetch && event == GitEvent::NotRun ==> git_next(run, event) is Stop,
{
}

/// The course of a run. Cloning comes first and leads to checking out. A
/// revision that cannot be checked out, where one is looked for, is checked out
/// once more after fetching, however that ended. Once it is checked out, the
/// commit is looked up where it is looked for; otherwise all is done.
pub proof fn law_git_course(run: GitRunView, event: GitEvent)
    ensures
        git_next(run, event) != GitNextView::Act(GitAction::Clone),
        git_next(run, event) == GitNextView::Act(GitAction::Checkout) <==> run.action == GitAction::Clone && event
            == GitEvent::Succeeded,
        git_next(run, event) == GitNextView::Act(GitAction::Fetch) <==> run.action == GitAction::Checkout && event
            == GitEvent::Failed && run.purpose == GitPurpose::Resolve,
        git_next(run, event) == GitNextView::Act(GitAction::Retry) <==> run.action == GitAction::Fetch,
        git_next(run, event) == GitNextView::Act(GitAction::RevParse) <==> event == GitEvent::Succeeded && (run.action
            == GitAction::Retry || run.action == GitAction::Checkout && run.purpose == GitPurpose::Resolve),
        git_next(run, event) == GitNextView::Done <==> event == GitEvent::Succeeded && (run.action == GitAction::RevParse
            || run.action == GitAction::Checkout && run.purpose == GitPurpose::Install),
        first_action(true) == GitAction::Checkout,
        first_action(false) == GitAction::Clone,
{
}

/// Which error a run ends with: what could not be run is named, a repository
/// that cannot be cloned by its URL, and a revision that cannot be checked out
/// by itself, as a commit where it is known to be one.
pub proof fn law_git_errors(run: GitRunView, event: GitEvent)
    ensures
        git_next(run, event) == GitNextView::Stop(GitErrorView::CloneFailed(run.url)) <==> run.action == GitAction::Clone
            && event == GitEvent::Failed,
        git_next(run, event) == GitNextView::Stop(GitErrorView::CloneNotRun) <==> run.action == GitAction::Clone && event
            == GitEvent::NotRun,
        git_next(run, event) == GitNextView::Stop(GitErrorView::NoSuchCommit(run.rev)) <==> run.action
            == GitAction::Checkout && event == GitEvent::Failed && run.purpose == GitPurpose::Install,
        git_next(run, event) == GitNextView::Stop(GitErrorView::CheckoutNotRun) <==> run.action == GitAction::Checkout
            && event == GitEvent::NotRun,
        git_next(run, event) == GitNextView::Stop(GitErrorView::NoSuchRev(run.rev)) <==> run.action == GitAction::Retry
            && event == GitEvent::Failed,
        git_next(run, event) == GitNextView::Stop(GitErrorView::RetryNotRun) <==> run.action == GitAction::Retry && event
            == GitEvent::NotRun,
        git_next(run, event) == GitNextView::Stop(GitErrorView::RevParseFailed) <==> run.action == GitAction::RevParse
            && event == GitEvent::Failed,
        git_next(run, event) == GitNextView::Stop(GitErrorView::RevParseNotRun) <==> run.action == GitAction::RevParse
            && event == GitEvent::NotRun,
{
}

/// Git is told the repository's URL to clone it, and the revision to check it
/// out, the first time and again; to fetch and to look up the commit it is told
/// neither.
pub proof fn law_git_args(run: GitRunView)
    ensures
        run.action == GitAction::Clone ==> args_view(run) == seq!["clone"@, run.url],
        run.action == GitAction::Checkout || run.action == GitAction::Retry ==> args_view(run).len() == 3 && args_view(
            run,
        )[0] == "checkout"@ && args_view(run)[1] == "--quiet"@ && args_view(run).last() == run.rev,
        run.action == GitAction::Fetch ==> args_view(run) == seq!["fetch"@, "--all"@, "--tags"@],
        run.action == GitAction::RevParse ==> args_view(run) == seq!["rev-parse"@, "HEAD"@],
{
}

/// A run goes on with the repository and the revision with which it began, and
/// for the same purpose.
pub proof fn law_git_run_keeps(run: GitRun, event: GitEvent, next: GitNext)
    requires
        call_ensures(GitRun::ended, (run, event), next),
    ensures
        next matches GitNext::Act(more) ==> more@.url == run@.url && more@.rev == run@.rev && more@.purpose
            == run@.purpose,
        next matches GitNext::Stop(GitError::CloneFailed(url)) ==> url@ == run@.url,
        next matches GitNext::Stop(GitError::NoSuchRev(rev)) ==> rev@ == run@.rev,
        next matches GitNext::Stop(GitError::NoSuchCommit(rev)) ==> rev@ == run@.rev,
{
}

/// The message on a failed run tells the repository or the revision.
pub proof fn law_git_message(fault: GitErrorView)
    ensures
        fault matches GitErrorView::CloneFailed(url) ==> tells(fault.text(), url),
        fault matches GitErrorView::NoSuchRev(rev) ==> tells(fault.text(), rev),
        fault matches GitErrorView::NoSuchCommit(rev) ==> tells(fault.text(), rev),
{
    match fault {
        GitErrorView::CloneFailed(url) => {
            lemma_tells("git clone 失败: "@, url, Seq::empty());
        },
        GitErrorView::NoSuchRev(rev) => {
            lemma_tells("git checkout 失败：rev/tag/branch \""@, rev, "\" 不存在"@);
        },
        GitErrorView::NoSuchCommit(rev) => {
            lemma_tells("git checkout 失败: commit \""@, rev, "\" 不存在"@);
        },
        _ => {},
    }
}

/// A run begins with the repository and the revision that it is given: with
/// cloning just where the repository is not there, and with checking out where
/// it is.
pub proof fn law_git_begins(purpose: GitPurpose, url: &str, rev: &str, repo_exists: bool, run: GitRun)
    requires
        call_ensures(GitRun::start, (purpose, url, rev, repo_exists), run),
    ensures
        run.url@ == url@,
        run.rev@ == rev@,
        run.purpose == purpose,
        run.action == GitAction::Clone <==> !repo_exists,
        run.action == GitAction::Checkout <==> repo_exists,
{
}

/// The wording of each message, which users search for.
pub proof fn law_git_wording(text: Text)
    ensures
        GitErrorView::CloneNotRun.text() == "执行 git clone 失败（请确认已安装 git 且网络可用）"@,
        GitErrorView::CloneFailed(text).text() == "git clone 失败: "@ + text,
        GitErrorView::CheckoutNotRun.text() == "执行 git checkout 失败"@,
        GitErrorView::RetryNotRun.text() == "执行 git checkout（fetch 后重试）失败"@,
        GitErrorView::NoSuchRev(text).text() == "git checkout 失败：rev/tag/branch \""@ + text + "\" 不存在"@,
        GitErrorView::NoSuchCommit(text).text() == "git checkout 失败: commit \""@ + text + "\" 不存在"@,
        GitErrorView::RevParseNotRun.text() == "执行 git rev-parse HEAD 失败"@,
        GitErrorView::RevParseFailed.text() == "git rev-parse HEAD 失败"@,
{
}

/// The commit is what was printed without the white space around it.
pub proof fn law_commit_of(printed: &str, commit: String)
    requires
        call_ensures(commit_of, (printed,), commit),
    ensures
        exists|i: int, j: int|
            #![trigger printed@.subrange(i, j)]
            {
                &&& 0 <= i <= j <= printed@.len()
                &&& commit@ == printed@.subrange(i, j)
                &&& forall|k: int| 0 <= k < i ==> is_white(#[trigger] printed@[k])
                &&& forall|k: int| j <= k < printed@.len() ==> is_white(#[trigger] printed@[k])
                &&& i < j ==> !is_white(printed@[i]) && !is_white(printed@[j - 1])
            },
{
    law_trimmed(printed@);
}

} // verus!
