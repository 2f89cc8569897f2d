//! Finding out how a project runs its tests, and reporting how they went.

use vstd::prelude::*;

use crate::json::{
    field, field_trees, item_trees, json_str, object2, push_field, push_item, text_field, uint64,
    Json, JsonView,
};
use crate::text::chars::{chars_of, owned, same, trim, trim_str};
use crate::text::lines::{lines, lines_of};
use crate::text::number::{decimal, decimal_int, i64_text, u64_text};
use crate::text::quote::{quoted, quoted_text};
use crate::text::search::{contains, ends_with, holds, join, lemma_prefix, starts_with};
use crate::tools::job_tools::{last_lines, tail_of};
use crate::tools::output::{ExecutionMode, OutputView, ToolOutput};

verus! {

/// How many seconds a run may take where nothing else is said.
pub const DEFAULT_TIMEOUT_SECS: u64 = 300;

/// Which marker files a project has.
#[derive(Debug, Clone, Copy, PartialEq, Eq, Structural)]
pub struct ProjectMarkers {
    pub cargo_toml: bool,
    pub go_mod: bool,
    pub package_json: bool,
    pub pnpm_lock: bool,
    pub yarn_lock: bool,
    pub pyproject_toml: bool,
    pub setup_py: bool,
    pub setup_cfg: bool,
    pub tox_ini: bool,
    pub pytest_ini: bool,
    pub tests_dir: bool,
    /// `Makefile` or `makefile`.
    pub makefile: bool,
}

/// An ecosystem and the command that runs its tests.
#[derive(Debug, Clone)]
pub struct Runner {
    pub ecosystem: String,
    pub command: String,
}

/// An ecosystem and the command that runs its tests.
pub struct RunnerView {
    pub ecosystem: Seq<char>,
    pub command: Seq<char>,
}

impl View for Runner {
    type V = RunnerView;

    open spec fn view(&self) -> RunnerView {
        RunnerView { ecosystem: self.ecosystem@, command: self.command@ }
    }
}

/// A text inside single quotes, with every quote of its own closed, escaped and opened again.
pub open spec fn escaped(s: Seq<char>) -> Seq<char>
    decreases s.len(),
{
    if s.len() == 0 {
        seq![]
    } else if s.last() == '\'' {
        escaped(s.drop_last()) + seq!['\'', '\\', '\'', '\'']
    } else {
        escaped(s.drop_last()).push(s.last())
    }
}

/// A text as one word of a shell command.
pub open spec fn shell_quoted(s: Seq<char>) -> Seq<char> {
    (seq!['\''] + escaped(s)).push('\'')
}

/// A text as one word of a shell command.
pub fn shell_quote(s: &str) -> (r: String)
    ensures
        r@ == shell_quoted(s@),
{
    let cs: Vec<char> = chars_of(s);
    let mut out: String = String::new();
    out.push('\'');
    let mut i: usize = 0;
    assert(out@ =~= seq!['\''] + escaped(s@.take(0)));
    while i < cs.len()
        invariant
            i <= cs@.len(),
            cs@ == s@,
            out@ == seq!['\''] + escaped(s@.take(i as int)),
        decreases cs@.len() - i,
    {
        let ghost before = out@;
        proof {
            assert(s@.take(i + 1).drop_last() =~= s@.take(i as int));
            assert(s@.take(i + 1).last() == cs@[i as int]);
        }
        if cs[i] == '\'' {
            out.push('\'');
            out.push('\\');
            out.push('\'');
            out.push('\'');
            assert(out@ =~= before + seq!['\'', '\\', '\'', '\'']);
            assert(out@ =~= seq!['\''] + escaped(s@.take(i + 1)));
        } else {
            out.push(cs[i]);
            assert(out@ =~= seq!['\''] + escaped(s@.take(i + 1)));
        }
        i = i + 1;
    }
    assert(s@.take(i as int) =~= s@);
    out.push('\'');
    out
}

/// What a shell reads one word as, where it is made of quoted pieces and escaped characters
/// alone; nothing where a character stands bare or a quote is left open.
pub open spec fn shell_reads(t: Seq<char>, inside: bool) -> Option<Seq<char>>
    decreases t.len(),
{
    if t.len() == 0 {
        if inside {
            None
        } else {
            Some(seq![])
        }
    } else if inside {
        if t[0] == '\'' {
            shell_reads(t.skip(1), false)
        } else {
            match shell_reads(t.skip(1), true) {
                Some(rest) => Some(seq![t[0]] + rest),
                None => None,
            }
        }
    } else if t[0] == '\'' {
        shell_reads(t.skip(1), true)
    } else if t[0] == '\\' && t.len() >= 2 {
        match shell_reads(t.skip(2), false) {
            Some(rest) => Some(seq![t[1]] + rest),
            None => None,
        }
    } else {
        None
    }
}

proof fn lemma_escaped_reads(s: Seq<char>, tail: Seq<char>)
    ensures
        shell_reads(escaped(s) + tail, true) == (match shell_reads(tail, true) {
            Some(rest) => Some(s + rest),
            None => None,
        }),
    decreases s.len(),
{
    if s.len() == 0 {
        assert(escaped(s) + tail =~= tail);
        if let Some(rest) = shell_reads(tail, true) {
            assert(s + rest =~= rest);
        }
    } else {
        let d = s.drop_last();
        let c = s.last();
        if c == '\'' {
            let mid = seq!['\'', '\\', '\'', '\''] + tail;
            assert(escaped(s) + tail =~= escaped(d) + mid);
            lemma_escaped_reads(d, mid);
            assert(mid.skip(1) =~= seq!['\\', '\'', '\''] + tail);
            assert(mid.skip(1).skip(2) =~= seq!['\''] + tail);
            assert(mid.skip(1).skip(2).skip(1) =~= tail);
            assert(shell_reads(mid, true) == shell_reads(mid.skip(1), false));
            assert(shell_reads(mid.skip(1).skip(2), false) == shell_reads(tail, true));
        } else {
            let mid = seq![c] + tail;
            assert(escaped(s) + tail =~= escaped(d) + mid);
            lemma_escaped_reads(d, mid);
            assert(mid.skip(1) =~= tail);
        }
        if let Some(rest) = shell_reads(tail, true) {
            assert(d + (seq![c] + rest) =~= s + rest);
        }
    }
}

/// A shell reads a quoted text as that text, in one word: nothing of it breaks out.
pub proof fn lemma_shell_quote(s: Seq<char>)
    ensures
        shell_reads(shell_quoted(s), false) == Some(s),
{
    let q = shell_quoted(s);
    let tail = seq!['\''];
    assert(q.skip(1) =~= escaped(s) + tail);
    lemma_escaped_reads(s, tail);
    assert(tail.skip(1) =~= Seq::<char>::empty());
    assert(shell_reads(tail, true) == shell_reads(tail.skip(1), false));
    assert(s + Seq::<char>::empty() =~= s);
}

/// What a filter adds to a command.
pub open spec fn with_filter(
    before: Seq<char>,
    filter: Option<Seq<char>>,
    after: Seq<char>,
    plain: Seq<char>,
) -> Seq<char> {
    match filter {
        Some(f) => before + shell_quoted(f) + after,
        None => plain,
    }
}

/// Whether a project shows that it is written in Python.
pub open spec fn is_python(m: ProjectMarkers) -> bool {
    m.pyproject_toml || m.setup_py || m.setup_cfg || m.tox_ini || m.pytest_ini || m.tests_dir
}

/// How a Node project runs its tests, going by its lock file.
pub open spec fn node_runner(m: ProjectMarkers) -> Seq<char> {
    if m.pnpm_lock {
        "pnpm test"@
    } else if m.yarn_lock {
        "yarn test"@
    } else {
        "npm test"@
    }
}

/// The command of an ecosystem, where the project has its marker.
pub open spec fn command_for(
    eco: Seq<char>,
    m: ProjectMarkers,
    filter: Option<Seq<char>>,
) -> Option<Seq<char>> {
    if eco == "rust"@ && m.cargo_toml {
        Some(with_filter("cargo test "@, filter, ""@, "cargo test"@))
    } else if eco == "go"@ && m.go_mod {
        Some(with_filter("go test -run "@, filter, " ./..."@, "go test ./..."@))
    } else if eco == "node"@ && m.package_json {
        Some(with_filter(node_runner(m) + " -- "@, filter, ""@, node_runner(m)))
    } else if eco == "python"@ && is_python(m) {
        Some(with_filter("pytest -q -k "@, filter, ""@, "pytest -q"@))
    } else if eco == "make"@ && m.makefile {
        Some("make test"@)
    } else {
        None
    }
}

/// The text of an optional string.
pub open spec fn option_text(t: Option<&str>) -> Option<Seq<char>> {
    match t {
        Some(s) => Some(s@),
        None => None,
    }
}

fn filtered(before: &str, filter: Option<&str>, after: &str, plain: &str) -> (r: String)
    ensures
        r@ == with_filter(before@, option_text(filter), after@, plain@),
{
    match filter {
        Some(f) => {
            let mut out: String = owned(before);
            out.append(&shell_quote(f));
            out.append(after);
            out
        },
        None => owned(plain),
    }
}

/// The runner of an ecosystem, where the project has its marker.
pub fn runner_for(ecosystem: &str, markers: &ProjectMarkers, filter: Option<&str>) -> (r: Option<
    Runner,
>)
    ensures
        match r {
            Some(x) => x@.ecosystem == ecosystem@ && command_for(
                ecosystem@,
                *markers,
                option_text(filter),
            ) == Some(x@.command),
            None => command_for(ecosystem@, *markers, option_text(filter)) is None,
        },
{
    proof {
        reveal_strlit("rust");
        reveal_strlit("go");
        reveal_strlit("node");
        reveal_strlit("python");
        reveal_strlit("make");
        assert("rust"@[0] == 'r' && "go"@[0] == 'g' && "node"@[0] == 'n' && "python"@[0] == 'p'
            && "make"@[0] == 'm');
    }
    let command: String = if same(ecosystem, "rust") && markers.cargo_toml {
        filtered("cargo test ", filter, "", "cargo test")
    } else if same(ecosystem, "go") && markers.go_mod {
        filtered("go test -run ", filter, " ./...", "go test ./...")
    } else if same(ecosystem, "node") && markers.package_json {
        let base: &str = if markers.pnpm_lock {
            "pnpm test"
        } else if markers.yarn_lock {
            "yarn test"
        } else {
            "npm test"
        };
        let mut lead: String = owned(base);
        lead.append(" -- ");
        filtered(&lead, filter, "", base)
    } else if same(ecosystem, "python") && (markers.pyproject_toml || markers.setup_py
        || markers.setup_cfg || markers.tox_ini || markers.pytest_ini || markers.tests_dir) {
        filtered("pytest -q -k ", filter, "", "pytest -q")
    } else if same(ecosystem, "make") && markers.makefile {
        owned("make test")
    } else {
        return None;
    };
    Some(Runner { ecosystem: owned(ecosystem), command })
}

/// The ecosystems in the order in which they are looked for.
pub const ECOSYSTEMS: [&'static str; 5] = ["rust", "go", "node", "python", "make"];

/// The ecosystems in the order in which they are looked for.
pub open spec fn ecosystems() -> Seq<Seq<char>> {
    seq!["rust"@, "go"@, "node"@, "python"@, "make"@]
}

/// The first of the ecosystems whose marker the project has, with its command.
pub open spec fn detected(
    ecos: Seq<Seq<char>>,
    m: ProjectMarkers,
    filter: Option<Seq<char>>,
) -> Option<RunnerView>
    decreases ecos.len(),
{
    if ecos.len() == 0 {
        None
    } else {
        match command_for(ecos[0], m, filter) {
            Some(command) => Some(RunnerView { ecosystem: ecos[0], command }),
            None => detected(ecos.skip(1), m, filter),
        }
    }
}

/// What is said where no ecosystem was found.
pub open spec fn nothing_detected() -> Seq<char> {
    "no test ecosystem detected (looked for Cargo.toml, go.mod, package.json, pyproject.toml/setup.py/tests/, Makefile)"@
}

/// Finds out how a project runs its tests.
pub fn detect(markers: &ProjectMarkers, filter: Option<&str>) -> (r: Result<Runner, String>)
    ensures
        match r {
            Ok(x) => detected(ecosystems(), *markers, option_text(filter)) == Some(x@),
            Err(e) => detected(ecosystems(), *markers, option_text(filter)) is None && e@
                == nothing_detected(),
        },
{
    let mut i: usize = 0;
    assert(ecosystems().skip(0) =~= ecosystems());
    while i < 5
        invariant
            i <= 5,
            detected(ecosystems(), *markers, option_text(filter)) == detected(
                ecosystems().skip(i as int),
                *markers,
                option_text(filter),
            ),
        decreases 5 - i,
    {
        let eco: &str = ECOSYSTEMS[i];
        proof {
            assert(ecosystems().skip(i as int)[0] == eco@);
            assert(ecosystems().skip(i as int).skip(1) =~= ecosystems().skip(i + 1));
        }
        if let Some(x) = runner_for(eco, markers, filter) {
            return Ok(x);
        }
        i = i + 1;
    }
    Err(
        owned(
            "no test ecosystem detected (looked for Cargo.toml, go.mod, package.json, pyproject.toml/setup.py/tests/, Makefile)",
        ),
    )
}

/// The ecosystem of a project and the command that runs its tests.
pub fn detect_verify_command(markers: &ProjectMarkers) -> (r: Option<(String, String)>)
    ensures
        match r {
            Some((eco, command)) => detected(ecosystems(), *markers, None) == Some(
                RunnerView { ecosystem: eco@, command: command@ },
            ),
            None => detected(ecosystems(), *markers, None) is None,
        },
{
    match detect(markers, None) {
        Ok(x) => Some((x.ecosystem, x.command)),
        Err(_) => None,
    }
}

/// A project with the marker of a language is not left to its Makefile.
pub proof fn lemma_makefile_is_last(m: ProjectMarkers, filter: Option<Seq<char>>)
    requires
        m.cargo_toml || m.go_mod || m.package_json || is_python(m),
    ensures
        detected(ecosystems(), m, filter) matches Some(x) && x.ecosystem != "make"@,
{
    reveal_strlit("rust");
    reveal_strlit("go");
    reveal_strlit("node");
    reveal_strlit("python");
    reveal_strlit("make");
    assert("rust"@[0] == 'r' && "go"@[0] == 'g' && "node"@[0] == 'n' && "python"@[0] == 'p'
        && "make"@[0] == 'm');
    let e = ecosystems();
    assert(e.skip(1)[0] == "go"@);
    assert(e.skip(1).skip(1)[0] == "node"@);
    assert(e.skip(1).skip(1).skip(1)[0] == "python"@);
    reveal_with_fuel(detected, 5);
}

proof fn lemma_ecosystem_names()
    ensures
        "rust"@ != "go"@ && "rust"@ != "node"@ && "rust"@ != "python"@ && "rust"@ != "make"@,
        "go"@ != "node"@ && "go"@ != "python"@ && "go"@ != "make"@,
        "node"@ != "python"@ && "node"@ != "make"@ && "python"@ != "make"@,
{
    reveal_strlit("rust");
    reveal_strlit("go");
    reveal_strlit("node");
    reveal_strlit("python");
    reveal_strlit("make");
    assert("rust"@[0] == 'r' && "go"@[0] == 'g' && "node"@[0] == 'n' && "python"@[0] == 'p'
        && "make"@[0] == 'm');
}

/// What a project is detected as, going by its marker files: Rust before Go, Go before Node, Node
/// before Python, each of them before a Makefile; any one of the six markers makes a project a
/// Python project; and without a marker nothing is detected.
pub proof fn lemma_detected_by_markers(m: ProjectMarkers, filter: Option<Seq<char>>)
    ensures
        ({
            let r = detected(ecosystems(), m, filter);
            let python = m.pyproject_toml || m.setup_py || m.setup_cfg || m.tox_ini || m.pytest_ini
                || m.tests_dir;
            let language = m.cargo_toml || m.go_mod || m.package_json || python;
            &&& m.cargo_toml ==> (r matches Some(x) && x.ecosystem == "rust"@)
            &&& !m.cargo_toml && m.go_mod ==> (r matches Some(x) && x.ecosystem == "go"@)
            &&& !m.cargo_toml && !m.go_mod && m.package_json ==> (r matches Some(x) && x.ecosystem
                == "node"@)
            &&& !m.cargo_toml && !m.go_mod && !m.package_json && python ==> (r matches Some(x)
                && x.ecosystem == "python"@)
            &&& !language && m.makefile ==> (r matches Some(x) && x.ecosystem == "make"@)
            &&& !language && !m.makefile ==> r is None
        }),
{
    lemma_ecosystem_names();
    let e = ecosystems();
    assert(e.skip(1)[0] == "go"@);
    assert(e.skip(1).skip(1)[0] == "node"@);
    assert(e.skip(1).skip(1).skip(1)[0] == "python"@);
    assert(e.skip(1).skip(1).skip(1).skip(1)[0] == "make"@);
    reveal_with_fuel(detected, 6);
}

/// The command that runs all tests of what was detected, and the one that runs those with a name:
/// the name is one word of the command.
pub proof fn lemma_detected_command(m: ProjectMarkers, name: Seq<char>)
    ensures
        (detected(ecosystems(), m, None) is Some) == (detected(ecosystems(), m, Some(name)) is Some),
        detected(ecosystems(), m, None) matches Some(all) ==> (detected(
            ecosystems(),
            m,
            Some(name),
        ) matches Some(some) && some.ecosystem == all.ecosystem && {
            let word = shell_quoted(name);
            let node = if m.pnpm_lock {
                "pnpm test"@
            } else if m.yarn_lock {
                "yarn test"@
            } else {
                "npm test"@
            };
            &&& all.ecosystem == "rust"@ ==> all.command == "cargo test"@ && some.command
                == "cargo test "@ + word
            &&& all.ecosystem == "go"@ ==> all.command == "go test ./..."@ && some.command
                == "go test -run "@ + word + " ./..."@
            &&& all.ecosystem == "node"@ ==> all.command == node && some.command == node + " -- "@
                + word
            &&& all.ecosystem == "python"@ ==> all.command == "pytest -q"@ && some.command
                == "pytest -q -k "@ + word
            &&& all.ecosystem == "make"@ ==> all.command == "make test"@ && some.command
                == "make test"@
        }),
{
    lemma_ecosystem_names();
    lemma_detected_by_markers(m, None);
    lemma_detected_by_markers(m, Some(name));
    reveal_strlit("");
    let word = shell_quoted(name);
    assert("cargo test "@ + word + ""@ =~= "cargo test "@ + word);
    assert("pytest -q -k "@ + word + ""@ =~= "pytest -q -k "@ + word);
    assert(node_runner(m) + " -- "@ + word + ""@ =~= node_runner(m) + " -- "@ + word);
    let e = ecosystems();
    assert(e.skip(1)[0] == "go"@);
    assert(e.skip(1).skip(1)[0] == "node"@);
    assert(e.skip(1).skip(1).skip(1)[0] == "python"@);
    assert(e.skip(1).skip(1).skip(1).skip(1)[0] == "make"@);
    reveal_with_fuel(detected, 6);
}

/// An ecosystem that a call pins is run where the project has a marker of it, whatever other markers
/// there are, with the command that it has where it is detected; it is refused otherwise.
pub proof fn lemma_pinned_by_markers(m: ProjectMarkers, filter: Option<Seq<char>>, eco: Seq<char>)
    ensures
        (command_for(eco, m, filter) is Some) == ((eco == "rust"@ && m.cargo_toml) || (eco == "go"@
            && m.go_mod) || (eco == "node"@ && m.package_json) || (eco == "python"@ && (
        m.pyproject_toml || m.setup_py || m.setup_cfg || m.tox_ini || m.pytest_ini || m.tests_dir))
            || (eco == "make"@ && m.makefile)),
        detected(ecosystems(), m, filter) matches Some(x) && x.ecosystem == eco ==> command_for(
            eco,
            m,
            filter,
        ) == Some(detected(ecosystems(), m, filter)->0.command),
{
    lemma_ecosystem_names();
    lemma_detected_by_markers(m, filter);
    let e = ecosystems();
    assert(e.skip(1)[0] == "go"@);
    assert(e.skip(1).skip(1)[0] == "node"@);
    assert(e.skip(1).skip(1).skip(1)[0] == "python"@);
    assert(e.skip(1).skip(1).skip(1).skip(1)[0] == "make"@);
    reveal_with_fuel(detected, 6);
}

/// What a call that pins an ecosystem asks for, and what one that pins none asks for.
pub proof fn lemma_planned(args: JsonView, m: ProjectMarkers)
    ensures
        ({
            let filter = text_field(args, "filter"@);
            match text_field(args, "ecosystem"@) {
                Some(eco) => match planned(args, m) {
                    Ok(x) => x.ecosystem == eco && command_for(eco, m, filter) == Some(x.command),
                    Err(e) => command_for(eco, m, filter) is None && contains(e, quoted_text(eco)),
                },
                None => match planned(args, m) {
                    Ok(x) => detected(ecosystems(), m, filter) == Some(x),
                    Err(e) => detected(ecosystems(), m, filter) is None && e.len() > 0,
                },
            }
        }),
{
    if let Some(eco) = text_field(args, "ecosystem"@) {
        if command_for(eco, m, text_field(args, "filter"@)) is None {
            let e = planned(args, m)->Err_0;
            let n = "ecosystem "@.len() as int;
            assert(e.subrange(n, n + quoted_text(eco).len()) =~= quoted_text(eco));
            assert(crate::text::search::occurs_at(e, quoted_text(eco), n));
        }
    } else {
        reveal_strlit(
            "no test ecosystem detected (looked for Cargo.toml, go.mod, package.json, pyproject.toml/setup.py/tests/, Makefile)",
        );
    }
}

/// The last of the lines that holds a text, without white space around it.
pub open spec fn last_line_with(ls: Seq<Seq<char>>, needle: Seq<char>) -> Option<Seq<char>>
    decreases ls.len(),
{
    if ls.len() == 0 {
        None
    } else if contains(ls.last(), needle) {
        Some(trim(ls.last()))
    } else {
        last_line_with(ls.drop_last(), needle)
    }
}

/// The first of three that is there.
pub open spec fn first_of(
    a: Option<Seq<char>>,
    b: Option<Seq<char>>,
    c: Option<Seq<char>>,
) -> Option<Seq<char>> {
    if a is Some {
        a
    } else if b is Some {
        b
    } else {
        c
    }
}

/// The line of a test run that says how it went.
pub open spec fn summary_of(eco: Seq<char>, output: Seq<char>) -> Option<Seq<char>> {
    let ls = lines(output);
    if eco == "rust"@ {
        last_line_with(ls, "test result:"@)
    } else if eco == "python"@ {
        first_of(
            last_line_with(ls, " passed"@),
            last_line_with(ls, " failed"@),
            last_line_with(ls, " error"@),
        )
    } else if eco == "go"@ {
        first_of(
            last_line_with(ls, "FAIL"@),
            last_line_with(ls, "ok  "@),
            last_line_with(ls, "PASS"@),
        )
    } else {
        None
    }
}

fn find_line(ls: &Vec<String>, needle: &str) -> (r: Option<String>)
    ensures
        r.deep_view() == last_line_with(ls.deep_view(), needle@),
{
    let ghost all = ls.deep_view();
    let mut i: usize = ls.len();
    assert(all.take(i as int) =~= all);
    while i > 0
        invariant
            i <= ls@.len(),
            all == ls.deep_view(),
            last_line_with(all, needle@) == last_line_with(all.take(i as int), needle@),
        decreases i,
    {
        proof {
            assert(all.take(i as int).drop_last() =~= all.take(i - 1));
            assert(all[i - 1] == ls@[i - 1]@);
            assert(all.take(i as int).last() == ls@[i - 1]@);
        }
        i = i - 1;
        if holds(&ls[i], needle) {
            return Some(owned(trim_str(&ls[i])));
        }
    }
    None
}

fn find_first_of(ls: &Vec<String>, a: &str, b: &str, c: &str) -> (r: Option<String>)
    ensures
        r.deep_view() == first_of(
            last_line_with(ls.deep_view(), a@),
            last_line_with(ls.deep_view(), b@),
            last_line_with(ls.deep_view(), c@),
        ),
{
    let x: Option<String> = find_line(ls, a);
    if x.is_some() {
        return x;
    }
    let y: Option<String> = find_line(ls, b);
    if y.is_some() {
        return y;
    }
    find_line(ls, c)
}

/// The line of a test run that says how it went.
pub fn summarize(ecosystem: &str, output: &str) -> (r: Option<String>)
    ensures
        r.deep_view() == summary_of(ecosystem@, output@),
{
    let ls: Vec<String> = lines_of(output);
    if same(ecosystem, "rust") {
        find_line(&ls, "test result:")
    } else if same(ecosystem, "python") {
        find_first_of(&ls, " passed", " failed", " error")
    } else if same(ecosystem, "go") {
        find_first_of(&ls, "FAIL", "ok  ", "PASS")
    } else {
        None
    }
}

/// The last `n` lines of a text, without white space around them.
pub open spec fn tail_text(s: Seq<char>, n: nat) -> Seq<char> {
    trim(join(last_lines(s, n), "\n"@))
}

/// The last `n` lines of a text, without white space around them.
pub fn tail_lines(s: &str, n: usize) -> (r: String)
    ensures
        r@ == tail_text(s@, n as nat),
{
    owned(trim_str(&tail_of(s, n)))
}

/// The tool that runs tests.
#[derive(Debug)]
pub struct RunTestsTool {
    cwd: String,
}

/// How a test command ended.
#[derive(Debug)]
pub struct ExecOutput {
    pub stdout: String,
    pub stderr: String,
    pub code: Option<i32>,
    pub timed_out: bool,
}

/// Whether a run passed: it ended in time, with the exit code 0.
pub open spec fn has_passed(code: Option<i32>, timed_out: bool) -> bool {
    code == Some(0i32) && !timed_out
}

/// How a run went.
pub open spec fn verdict_text(code: Option<i32>, timed_out: bool, timeout_secs: u64) -> Seq<char> {
    if timed_out {
        "TIMEOUT after "@ + decimal(timeout_secs as nat) + "s"@
    } else if has_passed(code, timed_out) {
        "PASS"@
    } else {
        match code {
            Some(n) => "FAIL (exit "@ + decimal_int(n as int) + ")"@,
            None => "FAIL (killed by signal)"@,
        }
    }
}

/// What is said of a run.
pub open spec fn report_text(
    x: RunnerView,
    combined: Seq<char>,
    code: Option<i32>,
    timed_out: bool,
    timeout_secs: u64,
) -> Seq<char> {
    let head = "["@ + x.ecosystem + "] "@ + x.command + " — "@ + verdict_text(
        code,
        timed_out,
        timeout_secs,
    ) + (match summary_of(x.ecosystem, combined) {
        Some(s) => "\n"@ + s,
        None => seq![],
    });
    let tail = tail_text(combined, 40);
    if tail.len() == 0 {
        head
    } else {
        head + "\n\n"@ + tail
    }
}

/// The details of a run.
pub open spec fn report_details(x: RunnerView, code: Option<i32>, timed_out: bool) -> JsonView {
    JsonView::Object(
        map![
            "ecosystem"@ => JsonView::Text(x.ecosystem),
            "command"@ => JsonView::Text(x.command),
            "passed"@ => JsonView::Bool(has_passed(code, timed_out)),
            "exit_code"@ => (match code {
                Some(n) => JsonView::Int(n as int),
                None => JsonView::Null,
            }),
            "timed_out"@ => JsonView::Bool(timed_out),
        ],
    )
}

/// How many seconds a call grants.
pub open spec fn timeout_of(args: JsonView) -> u64 {
    match field(args, "timeout_secs"@) {
        Some(v) => match uint64(v) {
            Some(n) => n as u64,
            None => DEFAULT_TIMEOUT_SECS,
        },
        None => DEFAULT_TIMEOUT_SECS,
    }
}

/// What a call asks for: the ecosystem that it pins, or the first that is found, or an error.
pub open spec fn planned(args: JsonView, m: ProjectMarkers) -> Result<RunnerView, Seq<char>> {
    let filter = text_field(args, "filter"@);
    match text_field(args, "ecosystem"@) {
        Some(eco) => match command_for(eco, m, filter) {
            Some(command) => Ok(RunnerView { ecosystem: eco, command }),
            None => Err(
                "ecosystem "@ + quoted_text(eco) + " pinned, but its marker file is not present"@,
            ),
        },
        None => match detected(ecosystems(), m, filter) {
            Some(x) => Ok(x),
            None => Err(nothing_detected()),
        },
    }
}

/// What a parameter is for, and which type it has.
pub open spec fn parameter(kind: Seq<char>, description: Seq<char>) -> Map<Seq<char>, JsonView> {
    map!["type"@ => JsonView::Text(kind), "description"@ => JsonView::Text(description)]
}

/// The parameters of the tool, as a JSON schema.
pub open spec fn parameters_schema() -> JsonView {
    let filter = parameter(
        "string"@,
        "Optional test name or substring to narrow the run."@,
    );
    let ecosystem = parameter(
        "string"@,
        "Pin the ecosystem instead of auto-detecting."@,
    ).insert(
        "enum"@,
        JsonView::Array(ecosystems().map_values(|e: Seq<char>| JsonView::Text(e))),
    );
    let timeout = parameter(
        "integer"@,
        "Max seconds before the run is killed (default 300)."@,
    );
    JsonView::Object(
        map![
            "type"@ => JsonView::Text("object"@),
            "properties"@ => JsonView::Object(
                map![
                    "filter"@ => JsonView::Object(filter),
                    "ecosystem"@ => JsonView::Object(ecosystem),
                    "timeout_secs"@ => JsonView::Object(timeout),
                ],
            ),
            "additionalProperties"@ => JsonView::Bool(false),
        ],
    )
}

/// The names of the ecosystems, in the order in which they are looked for.
fn ecosystem_names() -> (r: Json)
    ensures
        r@ == JsonView::Array(ecosystems().map_values(|e: Seq<char>| JsonView::Text(e))),
{
    let mut items: Vec<Json> = Vec::new();
    push_item(&mut items, json_str("rust"));
    push_item(&mut items, json_str("go"));
    push_item(&mut items, json_str("node"));
    push_item(&mut items, json_str("python"));
    push_item(&mut items, json_str("make"));
    assert(item_trees(items@) =~= ecosystems().map_values(|e: Seq<char>| JsonView::Text(e)));
    Json::Array(items)
}

impl RunTestsTool {
    /// The parameters of the tool, as a JSON schema.
    pub fn parameters(&self) -> (r: Json)
        ensures
            r@ == parameters_schema(),
    {
        let filter: Json = object2(
            "type",
            json_str("string"),
            "description",
            json_str("Optional test name or substring to narrow the run."),
        );
        let mut pinned: Vec<(String, Json)> = Vec::new();
        push_field(&mut pinned, "type", json_str("string"));
        push_field(
            &mut pinned,
            "description",
            json_str("Pin the ecosystem instead of auto-detecting."),
        );
        push_field(&mut pinned, "enum", ecosystem_names());
        assert(field_trees(pinned@) =~= parameter(
            "string"@,
            "Pin the ecosystem instead of auto-detecting."@,
        ).insert(
            "enum"@,
            JsonView::Array(ecosystems().map_values(|e: Seq<char>| JsonView::Text(e))),
        ));
        let timeout: Json = object2(
            "type",
            json_str("integer"),
            "description",
            json_str("Max seconds before the run is killed (default 300)."),
        );
        let mut properties: Vec<(String, Json)> = Vec::new();
        push_field(&mut properties, "filter", filter);
        push_field(&mut properties, "ecosystem", Json::Object(pinned));
        push_field(&mut properties, "timeout_secs", timeout);
        assert(field_trees(properties@) =~= map![
            "filter"@ => filter@,
            "ecosystem"@ => Json::Object(pinned)@,
            "timeout_secs"@ => timeout@,
        ]);
        let mut fields: Vec<(String, Json)> = Vec::new();
        push_field(&mut fields, "type", json_str("object"));
        push_field(&mut fields, "properties", Json::Object(properties));
        push_field(&mut fields, "additionalProperties", Json::Bool(false));
        assert(field_trees(fields@) =~= parameters_schema()->Object_0);
        Json::Object(fields)
    }

    /// Test runs write build artifacts, so they are kept off the parallel path.
    pub fn execution_mode(&self) -> (r: ExecutionMode)
        ensures
            r == ExecutionMode::Sequential,
    {
        ExecutionMode::Sequential
    }

    /// What the tool is called.
    pub fn name(&self) -> (r: &'static str)
        ensures
            r@ == "run_tests"@,
    {
        "run_tests"
    }

    /// What the tool does, as the model is told.
    pub fn description(&self) -> (r: &'static str)
        ensures
            r@
                == "Detect this project's test framework from its marker files and run the tests in one step. Optionally narrow with `filter` (a test name/substring) or pin `ecosystem` (rust|go|node|python|make). Returns pass/fail plus a summary — use this instead of manually inspecting the project and shelling out a test command."@,
    {
        "Detect this project's test framework from its marker files and run the tests in one step. Optionally narrow with `filter` (a test name/substring) or pin `ecosystem` (rust|go|node|python|make). Returns pass/fail plus a summary — use this instead of manually inspecting the project and shelling out a test command."
    }

    pub closed spec fn dir(&self) -> Seq<char> {
        self.cwd@
    }

    /// The tool for a project.
    pub fn new(cwd: &str) -> (r: RunTestsTool)
        ensures
            r.dir() == cwd@,
    {
        RunTestsTool { cwd: owned(cwd) }
    }

    /// The directory of the project.
    pub fn cwd(&self) -> (r: &str)
        ensures
            r@ == self.dir(),
    {
        self.cwd.as_str()
    }

    /// What a call asks for: the command that is to be run, and how many seconds it may take.
    pub fn plan(&self, args: &Json, markers: &ProjectMarkers) -> (r: Result<(Runner, u64), String>)
        ensures
            match r {
                Ok((x, secs)) => planned(args@, *markers) == Ok::<RunnerView, Seq<char>>(x@)
                    && secs == timeout_of(args@),
                Err(e) => planned(args@, *markers) == Err::<RunnerView, Seq<char>>(e@),
            },
    {
        let filter: Option<&str> = args.text_at("filter");
        let secs: u64 = match args.get("timeout_secs") {
            Some(v) => match v.as_u64() {
                Some(n) => n,
                None => DEFAULT_TIMEOUT_SECS,
            },
            None => DEFAULT_TIMEOUT_SECS,
        };
        match args.text_at("ecosystem") {
            Some(eco) => match runner_for(eco, markers, filter) {
                Some(x) => Ok((x, secs)),
                None => {
                    let mut e: String = owned("ecosystem ");
                    e.append(&quoted(eco));
                    e.append(" pinned, but its marker file is not present");
                    Err(e)
                },
            },
            None => match detect(markers, filter) {
                Ok(x) => Ok((x, secs)),
                Err(e) => Err(e),
            },
        }
    }

    /// What is said while a command runs.
    pub fn update_text(&self, runner: &Runner) -> (r: String)
        ensures
            r@ == "running: "@ + runner@.command,
    {
        let mut out: String = owned("running: ");
        out.append(&runner.command);
        out
    }

    /// What is handed back of a run that has ended.
    pub fn report(&self, runner: &Runner, out: &ExecOutput, timeout_secs: u64) -> (r: ToolOutput)
        ensures
            r@ == (OutputView {
                text: report_text(
                    runner@,
                    out.stdout@ + out.stderr@,
                    out.code,
                    out.timed_out,
                    timeout_secs,
                ),
                details: Some(report_details(runner@, out.code, out.timed_out)),
            }),
    {
        let mut combined: String = owned(&out.stdout);
        combined.append(&out.stderr);
        let passed: bool = match out.code {
            Some(n) => n == 0 && !out.timed_out,
            None => false,
        };
        let verdict: String = if out.timed_out {
            let mut v: String = owned("TIMEOUT after ");
            v.append(&u64_text(timeout_secs));
            v.append("s");
            v
        } else if passed {
            owned("PASS")
        } else {
            match out.code {
                Some(n) => {
                    let mut v: String = owned("FAIL (exit ");
                    v.append(&i64_text(n as i64));
                    v.append(")");
                    v
                },
                None => owned("FAIL (killed by signal)"),
            }
        };
        let mut text: String = owned("[");
        text.append(&runner.ecosystem);
        text.append("] ");
        text.append(&runner.command);
        text.append(" — ");
        text.append(&verdict);
        let ghost base = text@;
        match summarize(&runner.ecosystem, &combined) {
            Some(s) => {
                text.append("\n");
                text.append(&s);
                assert(text@ =~= base + ("\n"@ + s@));
            },
            None => {
                assert(text@ =~= base + Seq::<char>::empty());
            },
        }
        let tail: String = tail_lines(&combined, 40);
        if tail.as_str().unicode_len() > 0 {
            text.append("\n\n");
            text.append(&tail);
        }
        let mut fields: Vec<(String, Json)> = Vec::new();
        push_field(&mut fields, "ecosystem", json_str(&runner.ecosystem));
        push_field(&mut fields, "command", json_str(&runner.command));
        push_field(&mut fields, "passed", Json::Bool(passed));
        let code: Json = match out.code {
            Some(n) => Json::Int(n as i64),
            None => Json::Null,
        };
        push_field(&mut fields, "exit_code", code);
        push_field(&mut fields, "timed_out", Json::Bool(out.timed_out));
        assert(field_trees(fields@) =~= report_details(
            runner@,
            out.code,
            out.timed_out,
        )->Object_0);
        ToolOutput::text(text).with_details(Json::Object(fields))
    }
}

/// The last line that holds a text is the one behind which none does, without the white space around
/// it.
pub proof fn lemma_last_line_with(ls: Seq<Seq<char>>, needle: Seq<char>, i: int)
    requires
        forall|j: int| 0 <= j && i < j < ls.len() ==> !contains(#[trigger] ls[j], needle),
    ensures
        0 <= i < ls.len() && contains(ls[i], needle) ==> last_line_with(ls, needle) == Some(
            trim(ls[i]),
        ),
        i < 0 ==> last_line_with(ls, needle) is None,
    decreases ls.len(),
{
    if ls.len() > 0 && i < ls.len() - 1 {
        let r = ls.drop_last();
        assert forall|j: int| 0 <= j && i < j < r.len() implies !contains(#[trigger] r[j], needle) by {
            assert(r[j] == ls[j]);
        }
        assert(ls[ls.len() - 1] == ls.last());
        lemma_last_line_with(r, needle, i);
    }
}

/// Which line sums up a run: of Rust the last with its test result; of Python the last that counts
/// what passed, or else what failed, or else the errors; of Go the last that fails, or else the last
/// that is ok, or else the last that passes. Of others there is none.
pub proof fn lemma_summary(output: Seq<char>)
    ensures
        summary_of("rust"@, output) == last_line_with(lines(output), "test result:"@),
        last_line_with(lines(output), " passed"@) is Some ==> summary_of("python"@, output)
            == last_line_with(lines(output), " passed"@),
        last_line_with(lines(output), " passed"@) is None && last_line_with(
            lines(output),
            " failed"@,
        ) is Some ==> summary_of("python"@, output) == last_line_with(lines(output), " failed"@),
        last_line_with(lines(output), " passed"@) is None && last_line_with(
            lines(output),
            " failed"@,
        ) is None ==> summary_of("python"@, output) == last_line_with(lines(output), " error"@),
        last_line_with(lines(output), "FAIL"@) is Some ==> summary_of("go"@, output)
            == last_line_with(lines(output), "FAIL"@),
        last_line_with(lines(output), "FAIL"@) is None && last_line_with(lines(output), "ok  "@)
            is Some ==> summary_of("go"@, output) == last_line_with(lines(output), "ok  "@),
        last_line_with(lines(output), "FAIL"@) is None && last_line_with(lines(output), "ok  "@)
            is None ==> summary_of("go"@, output) == last_line_with(lines(output), "PASS"@),
        summary_of("node"@, output) is None && summary_of("make"@, output) is None,
{
    lemma_ecosystem_names();
}

/// How a run is judged: it passes where it ended in time with the exit code 0, and nowhere else.
pub proof fn lemma_verdict(code: i32, secs: u64)
    ensures
        verdict_text(Some(0i32), false, secs) == "PASS"@,
        code != 0 ==> verdict_text(Some(code), false, secs) == "FAIL (exit "@ + decimal_int(
            code as int,
        ) + ")"@,
        verdict_text(None, false, secs) == "FAIL (killed by signal)"@,
        verdict_text(Some(code), true, secs) == "TIMEOUT after "@ + decimal(secs as nat) + "s"@,
        verdict_text(None, true, secs) == "TIMEOUT after "@ + decimal(secs as nat) + "s"@,
        has_passed(Some(0i32), false),
        code != 0 ==> !has_passed(Some(code), false),
        !has_passed(None, false) && !has_passed(Some(code), true) && !has_passed(None, true),
{
}

proof fn lemma_three_parts(head: Seq<char>, more: Seq<char>, end: Seq<char>)
    ensures
        starts_with(head + more + end, head),
        starts_with(head + more + end, head + more),
        ends_with(head + more + end, end),
{
    let r = head + more + end;
    assert(r =~= head + (more + end));
    lemma_prefix(head, more + end, r);
    lemma_prefix(head + more, end, r);
    lemma_prefix(end, head + more, r);
}

/// What is said of a run: what was run and how it went come first, and the end of what it printed
/// comes last.
pub proof fn lemma_report(
    x: RunnerView,
    printed: Seq<char>,
    code: Option<i32>,
    timed_out: bool,
    secs: u64,
)
    ensures
        ({
            let r = report_text(x, printed, code, timed_out, secs);
            let tail = trim(join(last_lines(printed, 40), "\n"@));
            let summary = summary_of(x.ecosystem, printed);
            let head = "["@ + x.ecosystem + "] "@ + x.command + " — "@ + verdict_text(
                code,
                timed_out,
                secs,
            );
            &&& starts_with(r, head)
            &&& summary is Some ==> starts_with(r, head + ("\n"@ + summary->0))
            &&& tail.len() > 0 ==> ends_with(r, "\n\n"@ + tail)
            &&& tail.len() == 0 && summary is None ==> r == head
        }),
{
    let r = report_text(x, printed, code, timed_out, secs);
    let tail = trim(join(last_lines(printed, 40), "\n"@));
    let head = "["@ + x.ecosystem + "] "@ + x.command + " — "@ + verdict_text(code, timed_out, secs);
    let more = match summary_of(x.ecosystem, printed) {
        Some(s) => "\n"@ + s,
        None => Seq::<char>::empty(),
    };
    let end = if tail.len() == 0 {
        Seq::<char>::empty()
    } else {
        "\n\n"@ + tail
    };
    assert(r == head + more + end) by {
        if tail.len() == 0 {
            assert(head + more + end =~= head + more);
        } else {
            assert(head + more + end =~= head + more + "\n\n"@ + tail);
        }
    }
    lemma_three_parts(head, more, end);
    if tail.len() == 0 && more.len() == 0 {
        assert(head + more + end =~= head);
    }
}

/// The details of a run: what was run, whether it passed, how it ended, and whether it ran out of
/// time.
pub proof fn lemma_report_details(x: RunnerView, code: i32, timed_out: bool)
    ensures
        ({
            let d = report_details(x, Some(code), timed_out);
            &&& field(d, "ecosystem"@) == Some(JsonView::Text(x.ecosystem))
            &&& field(d, "command"@) == Some(JsonView::Text(x.command))
            &&& field(d, "passed"@) == Some(JsonView::Bool(code == 0 && !timed_out))
            &&& field(d, "exit_code"@) == Some(JsonView::Int(code as int))
            &&& field(d, "timed_out"@) == Some(JsonView::Bool(timed_out))
        }),
        field(report_details(x, None, timed_out), "exit_code"@) == Some(JsonView::Null),
        field(report_details(x, None, timed_out), "passed"@) == Some(JsonView::Bool(false)),
{
    reveal_strlit("ecosystem");
    reveal_strlit("command");
    reveal_strlit("passed");
    reveal_strlit("exit_code");
    reveal_strlit("timed_out");
    assert("ecosystem"@[1] == 'c' && "exit_code"@[1] == 'x' && "timed_out"@[1] == 'i');
    assert("command"@.len() == 7 && "passed"@.len() == 6);
}

/// How long a run may take: as many seconds as the call says, and three hundred where it says
/// nothing that can be granted.
pub proof fn lemma_timeout(m: Map<Seq<char>, JsonView>, n: int)
    ensures
        m.contains_key("timeout_secs"@) && m["timeout_secs"@] == JsonView::Int(n) && 0 <= n
            <= u64::MAX ==> timeout_of(JsonView::Object(m)) == n,
        m.contains_key("timeout_secs"@) && m["timeout_secs"@] == JsonView::Int(n) && n < 0
            ==> timeout_of(JsonView::Object(m)) == 300,
        !m.contains_key("timeout_secs"@) ==> timeout_of(JsonView::Object(m)) == 300,
{
}

proof fn lemma_escaped_plain(s: Seq<char>)
    requires
        !s.contains('\''),
    ensures
        escaped(s) == s,
    decreases s.len(),
{
    if s.len() > 0 {
        assert(s.contains(s.last()));
        let r = s.drop_last();
        assert forall|i: int| 0 <= i < r.len() implies (#[trigger] r[i]) != '\'' by {
            assert(s.contains(s[i]));
        }
        lemma_escaped_plain(r);
        assert(r.push(s.last()) =~= s);
    }
}

/// A text without quotes is that text between two quotes as a word of a command.
pub proof fn lemma_plain_word(s: Seq<char>)
    requires
        !s.contains('\''),
    ensures
        shell_quoted(s) == seq!['\''] + s + seq!['\''],
{
    lemma_escaped_plain(s);
    assert(shell_quoted(s) =~= seq!['\''] + s + seq!['\'']);
}

/// What a call may say: a filter, one of the five ecosystems, and how many seconds it grants; and
/// nothing else.
pub proof fn lemma_parameters()
    ensures
        ({
            let schema = parameters_schema();
            let properties = field(schema, "properties"@)->0;
            let ecosystem = field(properties, "ecosystem"@)->0;
            &&& field(schema, "type"@) == Some(JsonView::Text("object"@))
            &&& field(schema, "additionalProperties"@) == Some(JsonView::Bool(false))
            &&& field(properties, "filter"@) is Some && field(properties, "ecosystem"@) is Some
                && field(properties, "timeout_secs"@) is Some
            &&& field(ecosystem, "enum"@) == Some(
                JsonView::Array(
                    seq![
                        JsonView::Text("rust"@),
                        JsonView::Text("go"@),
                        JsonView::Text("node"@),
                        JsonView::Text("python"@),
                        JsonView::Text("make"@),
                    ],
                ),
            )
        }),
        nothing_detected()
            == "no test ecosystem detected (looked for Cargo.toml, go.mod, package.json, pyproject.toml/setup.py/tests/, Makefile)"@,
{
    reveal_strlit("properties");
    reveal_strlit("type");
    reveal_strlit("additionalProperties");
    reveal_strlit("filter");
    reveal_strlit("ecosystem");
    reveal_strlit("timeout_secs");
    reveal_strlit("enum");
    reveal_strlit("description");
    assert("properties"@.len() == 10 && "type"@.len() == 4 && "additionalProperties"@.len() == 20);
    assert("filter"@.len() == 6 && "ecosystem"@.len() == 9 && "timeout_secs"@.len() == 12);
    assert("enum"@[0] == 'e' && "type"@[0] == 't' && "description"@.len() == 11);
    let names = ecosystems().map_values(|e: Seq<char>| JsonView::Text(e));
    assert(names =~= seq![
        JsonView::Text("rust"@),
        JsonView::Text("go"@),
        JsonView::Text("node"@),
        JsonView::Text("python"@),
        JsonView::Text("make"@),
    ]);
}

} // verus!
