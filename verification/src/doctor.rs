//! Which tools a project needs, and the report on whether they are there.
use vstd::prelude::*;
use vstd::string::*;

use crate::text::{chars_of, string_of, trim_end, trim_start, trimmed, views, Text};

verus! {

/// A tool that is looked for: it is run with `--version`.
#[derive(Debug)]
pub struct Check {
    pub cmd: String,
    pub desc: String,
}

#[verifier::ext_equal]
pub struct CheckView {
    pub cmd: Text,
    pub desc: Text,
}

impl View for Check {
    type V = CheckView;

    open spec fn view(&self) -> CheckView {
        CheckView { cmd: self.cmd@, desc: self.desc@ }
    }
}

/// The tools that are looked for.
pub open spec fn check_list() -> Seq<CheckView> {
    seq![
        CheckView { cmd: "nelua"@, desc: "Nelua 编译器"@ },
        CheckView { cmd: "git"@, desc: "Git 版本控制"@ },
        CheckView { cmd: "cc"@, desc: "C 编译器（用于 Nelua 编译）"@ },
        CheckView { cmd: "pkg-config"@, desc: "pkg-config（用于 C 库探测，v0.6 需要）"@ },
    ]
}

fn check(cmd: &str, desc: &str) -> (c: Check)
    ensures
        c@ == (CheckView { cmd: cmd@, desc: desc@ }),
{
    Check { cmd: String::from_str(cmd), desc: String::from_str(desc) }
}

/// The tools that are looked for.
pub fn checks() -> (list: Vec<Check>)
    ensures
        views(list@) == check_list(),
{
    let mut list: Vec<Check> = Vec::new();
    list.push(check("nelua", "Nelua 编译器"));
    list.push(check("git", "Git 版本控制"));
    list.push(check("cc", "C 编译器（用于 Nelua 编译）"));
    list.push(check("pkg-config", "pkg-config（用于 C 库探测，v0.6 需要）"));
    assert(views(list@) =~= check_list());
    list
}

/// A text up to its first line break.
pub open spec fn first_line(s: Text) -> Text
    decreases s.len(),
{
    if s.len() == 0 || s[0] == '\n' {
        Seq::empty()
    } else {
        seq![s[0]] + first_line(s.drop_first())
    }
}

/// The version that a tool printed: the first line, without the space around
/// it.
pub open spec fn version_line(printed: Text) -> Text {
    if printed.len() == 0 {
        "(版本未知)"@
    } else {
        trim_end(trim_start(first_line(printed)))
    }
}

proof fn lemma_first_line(s: Text, n: int)
    requires
        0 <= n <= s.len(),
        forall|i: int| 0 <= i < n ==> s[i] != '\n',
        n == s.len() || s[n] == '\n',
    ensures
        first_line(s) == s.take(n),
    decreases n,
{
    if n == 0 {
        assert(s.take(0) =~= Seq::empty());
    } else {
        let rest = s.drop_first();
        assert forall|i: int| 0 <= i < n - 1 implies rest[i] != '\n' by {
            assert(rest[i] == s[i + 1]);
        }
        lemma_first_line(rest, n - 1);
        assert(s.take(n) =~= seq![s[0]] + rest.take(n - 1));
    }
}

fn version_of(printed: &str) -> (version: String)
    ensures
        version@ == version_line(printed@),
{
    let chars = chars_of(printed);
    if chars.len() == 0 {
        return String::from_str("(版本未知)");
    }
    let mut n: usize = 0;
    while n < chars.len() && chars[n] != '\n'
        invariant
            chars@ == printed@,
            n <= chars@.len(),
            forall|i: int| 0 <= i < n ==> chars@[i] != '\n',
        decreases chars.len() - n,
    {
        n = n + 1;
    }
    proof {
        lemma_first_line(printed@, n as int);
        assert(printed@.take(n as int) =~= chars@.subrange(0, n as int));
    }
    trimmed(string_of(&chars, 0, n).as_str())
}

/// The line on a tool, from what it printed if it ran well.
pub open spec fn check_line(check: CheckView, printed: Option<Text>) -> Text {
    match printed {
        Some(text) => "  ✓ "@ + check.desc + " - "@ + version_line(text),
        None => "  ✗ "@ + check.desc + " - 未找到（"@ + check.cmd + "）"@,
    }
}

/// The line on a tool, from what it printed if it ran well.
pub fn show_check(check: &Check, printed: Option<&str>) -> (line: String)
    ensures
        line@ == check_line(
            check@,
            match printed {
                Some(text) => Some(text@),
                None => None,
            },
        ),
{
    match printed {
        Some(text) => String::from_str("  ✓ ").concat(check.desc.as_str()).concat(" - ").concat(
            version_of(text).as_str(),
        ),
        None => String::from_str("  ✗ ").concat(check.desc.as_str()).concat(" - 未找到（").concat(
            check.cmd.as_str(),
        ).concat("）"),
    }
}

/// What is said in the end.
pub fn verdict(found: &Vec<bool>) -> (line: String)
    ensures
        found@.contains(false) ==> line@ == "⚠ 部分工具未找到，请根据提示安装缺失的依赖。"@,
        !found@.contains(false) ==> line@ == "✓ 所有检查通过！"@,
{
    let mut i: usize = 0;
    while i < found.len()
        invariant
            i <= found@.len(),
            forall|k: int| 0 <= k < i ==> found@[k],
        decreases found.len() - i,
    {
        if !found[i] {
            assert(found@[i as int] == false);
            return String::from_str("⚠ 部分工具未找到，请根据提示安装缺失的依赖。");
        }
        i = i + 1;
    }
    String::from_str("✓ 所有检查通过！")
}

/// The first line of a text is its beginning, holds no line break, and is
/// followed by one unless it is all of the text.
pub proof fn law_first_line(s: Text)
    ensures
        first_line(s).len() <= s.len(),
        first_line(s) == s.take(first_line(s).len() as int),
        forall|i: int| 0 <= i < first_line(s).len() ==> #[trigger] first_line(s)[i] != '\n',
        first_line(s).len() < s.len() ==> s[first_line(s).len() as int] == '\n',
    decreases s.len(),
{
    if s.len() == 0 || s[0] == '\n' {
        assert(s.take(0) =~= first_line(s));
    } else {
        let rest = s.drop_first();
        law_first_line(rest);
        let n = first_line(rest).len() as int;
        assert(first_line(s) =~= s.take(n + 1)) by {
            assert forall|i: int| 0 <= i < n + 1 implies first_line(s)[i] == s[i] by {
                if i > 0 {
                    assert(first_line(rest)[i - 1] == rest.take(n)[i - 1]);
                }
            }
        }
        assert forall|i: int| 0 <= i < first_line(s).len() implies #[trigger] first_line(s)[i] != '\n' by {
            if i > 0 {
                assert(first_line(s)[i] == first_line(rest)[i - 1]);
            }
        }
    }
}

/// What a tool printed shows by its first line alone: what stands behind a line
/// break makes no difference, nor does white space around the line.
pub proof fn law_version_line(line: Text, more: Text)
    requires
        forall|i: int| 0 <= i < line.len() ==> #[trigger] line[i] != '\n',
    ensures
        version_line(line + seq!['\n'] + more) == trim_end(trim_start(line)),
        line.len() > 0 ==> version_line(line) == trim_end(trim_start(line)),
        line.len() == 0 ==> version_line(line) == "(版本未知)"@,
{
    let printed = line + seq!['\n'] + more;
    lemma_first_line(printed, line.len() as int);
    assert(printed.take(line.len() as int) =~= line);
    lemma_first_line(line, line.len() as int);
    assert(line.take(line.len() as int) =~= line);
}

/// The line on a tool shows what the tool is for: with the version where it ran
/// well, and otherwise with the command that was not found.
pub proof fn law_check_line(check: CheckView, printed: Text)
    ensures
        check_line(check, Some(printed)) == "  ✓ "@ + check.desc + " - "@ + version_line(printed),
        check_line(check, None) == "  ✗ "@ + check.desc + " - 未找到（"@ + check.cmd + "）"@,
{
}

/// The tools that are looked for are the compiler, Git, a C compiler and
/// pkg-config, each once.
pub proof fn law_check_list(cmd: Text)
    ensures
        (exists|i: int| 0 <= i < check_list().len() && (#[trigger] check_list()[i]).cmd == cmd) <==> cmd == "nelua"@
            || cmd == "git"@ || cmd == "cc"@ || cmd == "pkg-config"@,
        check_list().len() == 4,
{
    let all = check_list();
    assert(all[0].cmd == "nelua"@);
    assert(all[1].cmd == "git"@);
    assert(all[2].cmd == "cc"@);
    assert(all[3].cmd == "pkg-config"@);
}

/// What is said in the end is that all is well just where every tool was found.
pub proof fn law_verdict(found: Vec<bool>, line: String)
    requires
        call_ensures(verdict, (&found,), line),
    ensures
        (forall|i: int| 0 <= i < found@.len() ==> #[trigger] found@[i]) ==> line@ == "✓ 所有检查通过！"@,
        (exists|i: int| 0 <= i < found@.len() && !#[trigger] found@[i]) ==> line@
            == "⚠ 部分工具未找到，请根据提示安装缺失的依赖。"@,
{
    if forall|i: int| 0 <= i < found@.len() ==> #[trigger] found@[i] {
        assert(!found@.contains(false));
    } else {
        let i = choose|i: int| 0 <= i < found@.len() && !#[trigger] found@[i];
        assert(found@[i] == false);
        assert(found@.contains(false));
    }
}

} // verus!
