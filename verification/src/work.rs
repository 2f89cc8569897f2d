//! Coding work: the defaults of a session, the strategy it follows, and what it starts.

use vstd::prelude::*;

use crate::text::chars::owned;
use crate::text::number::{decimal, usize_text};
use crate::text::path::{join_path, joined};
use crate::text::quote::{quoted, quoted_text};
use crate::text::search::{join, join_all};

verus! {

/// The strategy that is followed where none is asked for: plan, then execute.
pub const DEFAULT_STRATEGY: &'static str = "plan-exec";

/// The model that executes where none is asked for.
pub const DEFAULT_MODEL: &'static str = "qwen3.5-plus";

/// The model that plans where none is asked for.
pub const DEFAULT_PLAN_MODEL: &'static str = "deepseek-v4-pro";

/// How many turns a run takes at most where nothing else is asked for.
pub const DEFAULT_MAX_TURNS: usize = 40;

/// What a session is to do. Without a prompt it is meant to be interactive.
#[derive(Debug)]
pub struct WorkOptions {
    pub cwd: String,
    pub model: String,
    pub plan_model: Option<String>,
    pub strategy: String,
    pub prompt: Option<String>,
    pub max_turns: Option<usize>,
    pub sequential: bool,
}

pub struct WorkView {
    pub cwd: Seq<char>,
    pub model: Seq<char>,
    pub plan_model: Option<Seq<char>>,
    pub strategy: Seq<char>,
    pub prompt: Option<Seq<char>>,
    pub max_turns: Option<usize>,
    pub sequential: bool,
}

impl View for WorkOptions {
    type V = WorkView;

    open spec fn view(&self) -> WorkView {
        WorkView {
            cwd: self.cwd@,
            model: self.model@,
            plan_model: self.plan_model.deep_view(),
            strategy: self.strategy@,
            prompt: self.prompt.deep_view(),
            max_turns: self.max_turns,
            sequential: self.sequential,
        }
    }
}

impl WorkOptions {
    /// The defaults for coding work, in the current directory, or in `.` where that is not known.
    pub fn default(current_dir: Option<&str>) -> (r: WorkOptions)
        ensures
            r@ == (WorkView {
                cwd: match current_dir {
                    Some(d) => d@,
                    None => "."@,
                },
                model: DEFAULT_MODEL@,
                plan_model: Some(DEFAULT_PLAN_MODEL@),
                strategy: DEFAULT_STRATEGY@,
                prompt: None,
                max_turns: Some(DEFAULT_MAX_TURNS),
                sequential: false,
            }),
    {
        WorkOptions {
            cwd: match current_dir {
                Some(d) => owned(d),
                None => owned("."),
            },
            model: owned(DEFAULT_MODEL),
            plan_model: Some(owned(DEFAULT_PLAN_MODEL)),
            strategy: owned(DEFAULT_STRATEGY),
            prompt: None,
            max_turns: Some(DEFAULT_MAX_TURNS),
            sequential: false,
        }
    }
}

/// A text, or another one where it is empty.
pub open spec fn or_default(s: Seq<char>, default: Seq<char>) -> Seq<char> {
    if s.len() == 0 {
        default
    } else {
        s
    }
}

/// The options with the defaults for what they leave open.
pub open spec fn with_defaults(o: WorkView) -> WorkView {
    WorkView {
        model: or_default(o.model, DEFAULT_MODEL@),
        strategy: or_default(o.strategy, DEFAULT_STRATEGY@),
        plan_model: match o.plan_model {
            Some(m) => Some(or_default(m, DEFAULT_PLAN_MODEL@)),
            None => Some(DEFAULT_PLAN_MODEL@),
        },
        ..o
    }
}

fn non_empty(s: String, default: &str) -> (r: String)
    ensures
        r@ == or_default(s@, default@),
{
    if s.as_str().unicode_len() == 0 {
        owned(default)
    } else {
        s
    }
}

/// The options with the defaults for what they leave open. What they say stays.
pub fn apply_work_defaults(opts: WorkOptions) -> (r: WorkOptions)
    ensures
        r@ == with_defaults(opts@),
{
    WorkOptions {
        cwd: opts.cwd,
        model: non_empty(opts.model, DEFAULT_MODEL),
        plan_model: Some(
            match opts.plan_model {
                Some(m) => non_empty(m, DEFAULT_PLAN_MODEL),
                None => owned(DEFAULT_PLAN_MODEL),
            },
        ),
        strategy: non_empty(opts.strategy, DEFAULT_STRATEGY),
        prompt: opts.prompt,
        max_turns: opts.max_turns,
        sequential: opts.sequential,
    }
}

/// Options with their defaults stay as they are when the defaults are applied again, and name a
/// model, a planner and a strategy.
pub proof fn lemma_defaults(o: WorkView)
    ensures
        with_defaults(with_defaults(o)) == with_defaults(o),
        with_defaults(o).model.len() > 0,
        with_defaults(o).strategy.len() > 0,
        with_defaults(o).plan_model matches Some(m) && m.len() > 0,
{
    reveal_strlit("plan-exec");
    reveal_strlit("qwen3.5-plus");
    reveal_strlit("deepseek-v4-pro");
}

/// What the tools of a phase may do.
#[derive(Debug, Clone, Copy, PartialEq, Eq, Structural)]
pub enum ToolScope {
    ReadOnly,
    Full,
}

/// A phase of a strategy: what its tools may do, and its model where it has one of its own.
#[derive(Debug)]
pub struct Phase {
    pub scope: ToolScope,
    pub model: Option<String>,
}

pub struct PhaseView {
    pub scope: ToolScope,
    pub model: Option<Seq<char>>,
}

impl View for Phase {
    type V = PhaseView;

    open spec fn view(&self) -> PhaseView {
        PhaseView { scope: self.scope, model: self.model.deep_view() }
    }
}

/// A step of a strategy: one phase, or several that run side by side.
#[derive(Debug)]
pub enum Step {
    Solo(Phase),
    Fan { branches: Vec<Phase> },
}

#[verifier::ext_equal]
pub enum StepView {
    Solo(PhaseView),
    Fan { branches: Seq<PhaseView> },
}

/// The phases that a sequence holds.
pub open spec fn phase_views(ps: Seq<Phase>) -> Seq<PhaseView> {
    ps.map_values(|p: Phase| p@)
}

impl View for Step {
    type V = StepView;

    open spec fn view(&self) -> StepView {
        match self {
            Step::Solo(p) => StepView::Solo(p@),
            Step::Fan { branches } => StepView::Fan { branches: phase_views(branches@) },
        }
    }
}

/// The steps that a sequence holds.
pub open spec fn step_views(steps: Seq<Step>) -> Seq<StepView> {
    steps.map_values(|s: Step| s@)
}

/// A strategy: its name and its steps.
#[derive(Debug)]
pub struct Strategy {
    pub name: String,
    pub steps: Vec<Step>,
}

#[verifier::ext_equal]
pub struct StrategyView {
    pub name: Seq<char>,
    pub steps: Seq<StepView>,
}

impl View for Strategy {
    type V = StrategyView;

    open spec fn view(&self) -> StrategyView {
        StrategyView { name: self.name@, steps: step_views(self.steps@) }
    }
}

/// A phase with the planner pinned: a read-only phase runs on it, any other keeps its model.
pub open spec fn pinned_phase(p: PhaseView, model: Seq<char>) -> PhaseView {
    match p.scope {
        ToolScope::ReadOnly => PhaseView { model: Some(model), ..p },
        ToolScope::Full => p,
    }
}

/// A step with the planner pinned.
pub open spec fn pinned_step(s: StepView, model: Seq<char>) -> StepView {
    match s {
        StepView::Solo(p) => StepView::Solo(pinned_phase(p, model)),
        StepView::Fan { branches } => StepView::Fan {
            branches: branches.map_values(|p: PhaseView| pinned_phase(p, model)),
        },
    }
}

/// A strategy with the planner pinned onto its read-only phases.
pub open spec fn pinned(s: StrategyView, model: Seq<char>) -> StrategyView {
    StrategyView { name: s.name, steps: s.steps.map_values(|t: StepView| pinned_step(t, model)) }
}

fn pin_phase(p: Phase, model: &str) -> (r: Phase)
    ensures
        r@ == pinned_phase(p@, model@),
{
    match p.scope {
        ToolScope::ReadOnly => Phase { scope: p.scope, model: Some(owned(model)) },
        ToolScope::Full => p,
    }
}

/// The strategy with the planner pinned onto its read-only phases.
pub fn pin_plan_model(strategy: Strategy, model: &str) -> (r: Strategy)
    ensures
        r@ == pinned(strategy@, model@),
{
    let ghost want = pinned(strategy@, model@).steps;
    let mut steps: Vec<Step> = Vec::new();
    let Strategy { name, steps: old_steps } = strategy;
    let ghost all = old_steps@;
    assert(step_views(steps@) =~= want.take(0));
    for step in it: old_steps
        invariant
            it.seq() == all,
            want == step_views(all).map_values(|t: StepView| pinned_step(t, model@)),
            step_views(steps@) == want.take(it.index()),
    {
        let ghost before = step_views(steps@);
        let ghost at = it.index();
        let ghost was = step;
        let now: Step = match step {
            Step::Solo(p) => Step::Solo(pin_phase(p, model)),
            Step::Fan { branches } => {
                let ghost bs = branches@;
                let ghost wanted = phase_views(bs).map_values(
                    |p: PhaseView| pinned_phase(p, model@),
                );
                let mut out: Vec<Phase> = Vec::new();
                assert(phase_views(out@) =~= wanted.take(0));
                for p in jt: branches
                    invariant
                        jt.seq() == bs,
                        wanted == phase_views(bs).map_values(
                            |p: PhaseView| pinned_phase(p, model@),
                        ),
                        phase_views(out@) == wanted.take(jt.index()),
                {
                    let ghost earlier = phase_views(out@);
                    let q: Phase = pin_phase(p, model);
                    proof {
                        assert(p == bs[jt.index()]);
                        assert(wanted[jt.index()] == q@);
                        assert(phase_views(out@.push(q)) =~= earlier.push(q@));
                        assert(wanted.take(jt.index() + 1) =~= wanted.take(jt.index()).push(
                            wanted[jt.index()],
                        ));
                    }
                    out.push(q);
                }
                assert(wanted.take(bs.len() as int) =~= wanted);
                Step::Fan { branches: out }
            },
        };
        proof {
            assert(was == all[at]);
            assert(want[at] == now@);
            assert(step_views(steps@.push(now)) =~= before.push(now@));
            assert(want.take(at + 1) =~= want.take(at).push(want[at]));
        }
        steps.push(now);
    }
    assert(want.take(all.len() as int) =~= want);
    Strategy { name, steps }
}

/// The phases of a step.
pub open spec fn phases_in(s: StepView) -> Seq<PhaseView> {
    match s {
        StepView::Solo(p) => seq![p],
        StepView::Fan { branches } => branches,
    }
}

/// The phases of steps, in order.
pub open spec fn phases_of(steps: Seq<StepView>) -> Seq<PhaseView>
    decreases steps.len(),
{
    if steps.len() == 0 {
        Seq::empty()
    } else {
        phases_of(steps.drop_last()) + phases_in(steps.last())
    }
}

/// How many phases have a scope.
pub open spec fn count_scope(ps: Seq<PhaseView>, scope: ToolScope) -> nat
    decreases ps.len(),
{
    if ps.len() == 0 {
        0
    } else {
        count_scope(ps.drop_last(), scope) + (if ps.last().scope == scope {
            1nat
        } else {
            0nat
        })
    }
}

/// The models of phases.
pub open spec fn models_of(ps: Seq<PhaseView>) -> Seq<Option<Seq<char>>> {
    ps.map_values(|p: PhaseView| p.model)
}

/// What was counted of a strategy so far: its read-only phases, its other phases, and the model of
/// each.
struct Summary {
    read_only: usize,
    full: usize,
    models: Vec<Option<String>>,
}

impl Summary {
    spec fn counts(self, ps: Seq<PhaseView>) -> bool {
        &&& self.read_only == count_scope(ps, ToolScope::ReadOnly)
        &&& self.full == count_scope(ps, ToolScope::Full)
        &&& self.models.deep_view() == models_of(ps)
        &&& self.read_only + self.full == self.models@.len()
    }

    fn add(self, p: &Phase, Ghost(ps): Ghost<Seq<PhaseView>>) -> (r: Summary)
        requires
            self.counts(ps),
        ensures
            r.counts(ps.push(p@)),
    {
        let Summary { read_only, full, mut models } = self;
        let ghost before = models.deep_view();
        let model: Option<String> = match &p.model {
            Some(m) => Some(owned(m.as_str())),
            None => None,
        };
        models.push(model);
        let count: usize = models.len();
        proof {
            assert(count == models@.len());
            assert(models.deep_view() =~= before.push(p@.model));
            assert(models_of(ps.push(p@)) =~= models_of(ps).push(p@.model));
            assert(ps.push(p@).drop_last() =~= ps);
        }
        match p.scope {
            ToolScope::ReadOnly => Summary { read_only: read_only + 1, full, models },
            ToolScope::Full => Summary { read_only, full: full + 1, models },
        }
    }
}

/// How many phases of a strategy are read-only, how many are not, and the model of each.
pub fn phase_scope_summary(strategy: &Strategy) -> (r: (usize, usize, Vec<Option<String>>))
    ensures
        r.0 == count_scope(phases_of(strategy@.steps), ToolScope::ReadOnly),
        r.1 == count_scope(phases_of(strategy@.steps), ToolScope::Full),
        r.2.deep_view() == models_of(phases_of(strategy@.steps)),
{
    let ghost all = strategy@.steps;
    let mut s: Summary = Summary { read_only: 0, full: 0, models: Vec::new() };
    let n: usize = strategy.steps.len();
    let mut i: usize = 0;
    assert(s.models.deep_view() =~= models_of(phases_of(all.take(0))));
    while i < n
        invariant
            i <= n,
            n == strategy.steps@.len(),
            all == strategy@.steps,
            s.counts(phases_of(all.take(i as int))),
        decreases n - i,
    {
        let ghost done = phases_of(all.take(i as int));
        proof {
            assert(all.take(i + 1).drop_last() =~= all.take(i as int));
            assert(all.take(i + 1).last() == strategy.steps@[i as int]@);
        }
        match &strategy.steps[i] {
            Step::Solo(p) => {
                s = s.add(p, Ghost(done));
                assert(done.push(p@) =~= done + seq![p@]);
            },
            Step::Fan { branches } => {
                let ghost bs = phase_views(branches@);
                let m: usize = branches.len();
                let mut j: usize = 0;
                assert(done + bs.take(0) =~= done);
                while j < m
                    invariant
                        j <= m,
                        m == branches@.len(),
                        bs == phase_views(branches@),
                        s.counts(done + bs.take(j as int)),
                    decreases m - j,
                {
                    s = s.add(&branches[j], Ghost(done + bs.take(j as int)));
                    proof {
                        assert(bs[j as int] == branches@[j as int]@);
                        assert((done + bs.take(j as int)).push(bs[j as int]) =~= done + bs.take(
                            j + 1,
                        ));
                    }
                    j = j + 1;
                }
                assert(bs.take(m as int) =~= bs);
            },
        }
        i = i + 1;
    }
    assert(all.take(n as int) =~= all);
    (s.read_only, s.full, s.models)
}

/// What is said where no strategy has a name.
pub open spec fn unknown_strategy(name: Seq<char>) -> Seq<char> {
    "unknown strategy "@ + quoted_text(name)
}

/// The strategy of a session: the one found under its name, with the planner pinned where there is
/// one.
pub fn resolve_work_strategy(opts: &WorkOptions, found: Option<Strategy>) -> (r: Result<
    Strategy,
    String,
>)
    ensures
        match found {
            Some(s) => r matches Ok(t) && t@ == (match opts@.plan_model {
                Some(m) => pinned(s@, m),
                None => s@,
            }),
            None => r matches Err(e) && e@ == unknown_strategy(opts@.strategy),
        },
{
    match found {
        Some(s) => match &opts.plan_model {
            Some(m) => Ok(pin_plan_model(s, m.as_str())),
            None => Ok(s),
        },
        None => {
            let mut t: String = owned("unknown strategy ");
            t.append(quoted(opts.strategy.as_str()).as_str());
            Err(t)
        },
    }
}

/// Pinning a planner puts it on every read-only phase, leaves every other phase as it was, and
/// neither adds nor drops a phase.
pub proof fn lemma_pinned(steps: Seq<StepView>, model: Seq<char>)
    ensures
        phases_of(steps.map_values(|t: StepView| pinned_step(t, model))) == phases_of(
            steps,
        ).map_values(|p: PhaseView| pinned_phase(p, model)),
    decreases steps.len(),
{
    let f = |t: StepView| pinned_step(t, model);
    let g = |p: PhaseView| pinned_phase(p, model);
    if steps.len() > 0 {
        lemma_pinned(steps.drop_last(), model);
        assert(steps.map_values(f).drop_last() =~= steps.drop_last().map_values(f));
        assert(steps.map_values(f).last() == pinned_step(steps.last(), model));
        assert(phases_in(pinned_step(steps.last(), model)) =~= phases_in(steps.last()).map_values(
            g,
        ));
    }
    assert(phases_of(steps.map_values(f)) =~= phases_of(steps).map_values(g));
}

/// What the agent of a session is told about itself.
pub open spec fn coding_prompt(cwd: Seq<char>) -> Seq<char> {
    "You are pirs-work, a coding agent working in `"@ + cwd
        + "`.\nPrefer small, correct edits. Use tools to read and search before writing.\nFix source, not tests, unless the user asked to change tests.\nRun project tests after edits when possible. Be concise."@
}

/// What the agent of a session is told about itself.
pub fn coding_system_prompt(cwd: &str) -> (r: String)
    ensures
        r@ == coding_prompt(cwd@),
{
    let mut t: String = owned("You are pirs-work, a coding agent working in `");
    t.append(cwd);
    t.append(
        "`.\nPrefer small, correct edits. Use tools to read and search before writing.\nFix source, not tests, unless the user asked to change tests.\nRun project tests after edits when possible. Be concise.",
    );
    t
}

/// How the agent of a session is set up: its model and system prompt, how many turns it takes
/// where that is limited, and whether it calls one tool at a time.
#[derive(Debug)]
pub struct WorkAgent {
    pub model: String,
    pub system_prompt: String,
    pub max_turns: Option<usize>,
    pub sequential: bool,
}

/// How the agent of a session is set up.
pub fn build_work_agent(opts: &WorkOptions) -> (r: WorkAgent)
    ensures
        r.model@ == opts@.model,
        r.system_prompt@ == coding_prompt(opts@.cwd),
        r.max_turns == opts@.max_turns,
        r.sequential == opts@.sequential,
{
    WorkAgent {
        model: owned(opts.model.as_str()),
        system_prompt: coding_system_prompt(opts.cwd.as_str()),
        max_turns: opts.max_turns,
        sequential: opts.sequential,
    }
}

/// What was asked for on the command line.
#[derive(Debug)]
pub struct WorkArgs {
    pub model: String,
    pub plan_model: String,
    pub strategy: String,
    pub max_turns: Option<usize>,
    pub sequential: bool,
    pub prompt: Vec<String>,
}

/// The options that a command line stands for, in a directory.
pub open spec fn options_of(args: WorkArgs, cwd: Seq<char>) -> WorkView {
    let prompt = join(args.prompt.deep_view(), " "@);
    with_defaults(
        WorkView {
            cwd,
            model: args.model@,
            plan_model: if args.plan_model@.len() == 0 {
                None
            } else {
                Some(args.plan_model@)
            },
            strategy: args.strategy@,
            prompt: if prompt.len() == 0 {
                None
            } else {
                Some(prompt)
            },
            max_turns: match args.max_turns {
                Some(n) => Some(n),
                None => Some(DEFAULT_MAX_TURNS),
            },
            sequential: args.sequential,
        },
    )
}

/// The options that a command line stands for, in a directory.
pub fn work_options(args: WorkArgs, cwd: &str) -> (r: WorkOptions)
    ensures
        r@ == options_of(args, cwd@),
{
    let prompt: String = join_all(&args.prompt, " ");
    let plan_model: Option<String> = if args.plan_model.as_str().unicode_len() == 0 {
        None
    } else {
        Some(args.plan_model)
    };
    let prompt: Option<String> = if prompt.as_str().unicode_len() == 0 {
        None
    } else {
        Some(prompt)
    };
    let max_turns: Option<usize> = match args.max_turns {
        Some(n) => Some(n),
        None => Some(DEFAULT_MAX_TURNS),
    };
    apply_work_defaults(
        WorkOptions {
            cwd: owned(cwd),
            model: args.model,
            plan_model,
            strategy: args.strategy,
            prompt,
            max_turns,
            sequential: args.sequential,
        },
    )
}

/// An optional text as messages show it.
pub open spec fn shown_option(s: Option<Seq<char>>) -> Seq<char> {
    match s {
        Some(t) => "Some("@ + quoted_text(t) + ")"@,
        None => "None"@,
    }
}

/// What is printed before a session starts.
pub open spec fn banner_text(o: WorkView, strategy: StrategyView) -> Seq<char> {
    "[pirs-work: cwd="@ + o.cwd + " model="@ + o.model + " plan_model="@ + shown_option(
        o.plan_model,
    ) + " strategy="@ + strategy.name + " phases="@ + decimal(strategy.steps.len()) + "]"@
}

/// What is printed before a session starts.
pub fn banner(opts: &WorkOptions, strategy: &Strategy) -> (r: String)
    ensures
        r@ == banner_text(opts@, strategy@),
{
    let mut t: String = owned("[pirs-work: cwd=");
    t.append(opts.cwd.as_str());
    t.append(" model=");
    t.append(opts.model.as_str());
    t.append(" plan_model=");
    match &opts.plan_model {
        Some(m) => {
            let mut shown: String = owned("Some(");
            shown.append(quoted(m.as_str()).as_str());
            shown.append(")");
            t.append(shown.as_str());
        },
        None => {
            t.append("None");
        },
    }
    t.append(" strategy=");
    t.append(strategy.name.as_str());
    t.append(" phases=");
    t.append(usize_text(strategy.steps.len()).as_str());
    t.append("]");
    t
}

/// What is printed where there is no prompt.
pub open spec fn usage() -> Seq<char> {
    "usage: pirs-work [OPTIONS] <prompt…>\ninteractive coding UI: pirs --mode tui --strategy plan-exec --model … --plan-model …\ndefaults: model="@
        + DEFAULT_MODEL@ + " plan_model="@ + DEFAULT_PLAN_MODEL@ + " strategy="@ + DEFAULT_STRATEGY@
}

/// What is printed where there is no prompt.
pub fn usage_text() -> (r: String)
    ensures
        r@ == usage(),
{
    let mut t: String = owned(
        "usage: pirs-work [OPTIONS] <prompt…>\ninteractive coding UI: pirs --mode tui --strategy plan-exec --model … --plan-model …\ndefaults: model=",
    );
    t.append(DEFAULT_MODEL);
    t.append(" plan_model=");
    t.append(DEFAULT_PLAN_MODEL);
    t.append(" strategy=");
    t.append(DEFAULT_STRATEGY);
    t
}

/// The arguments with which the `pirs` program runs a session.
pub open spec fn delegate_args(o: WorkView, prompt: Seq<char>) -> Seq<Seq<char>> {
    seq![
        "--strategy"@,
        o.strategy,
        "--model"@,
        o.model,
        "--plan-model"@,
        match o.plan_model {
            Some(m) => m,
            None => Seq::empty(),
        },
        "--max-turns"@,
        decimal(
            match o.max_turns {
                Some(n) => n as nat,
                None => DEFAULT_MAX_TURNS as nat,
            },
        ),
        prompt,
    ]
}

/// The arguments with which the `pirs` program runs a session.
pub fn pirs_args(opts: &WorkOptions, prompt: &str) -> (r: Vec<String>)
    ensures
        r.deep_view() == delegate_args(opts@, prompt@),
{
    let mut out: Vec<String> = Vec::new();
    out.push(owned("--strategy"));
    out.push(owned(opts.strategy.as_str()));
    out.push(owned("--model"));
    out.push(owned(opts.model.as_str()));
    out.push(owned("--plan-model"));
    out.push(
        match &opts.plan_model {
            Some(m) => owned(m.as_str()),
            None => String::new(),
        },
    );
    out.push(owned("--max-turns"));
    out.push(
        usize_text(
            match opts.max_turns {
                Some(n) => n,
                None => DEFAULT_MAX_TURNS,
            },
        ),
    );
    out.push(owned(prompt));
    assert(out.deep_view() =~= delegate_args(opts@, prompt@));
    out
}

/// Where the `pirs` program is looked for, in order: the path that was named, beside this program,
/// and the directories of the search path.
pub open spec fn pirs_places(
    named: Option<Seq<char>>,
    beside: Option<Seq<char>>,
    path: Seq<Seq<char>>,
) -> Seq<Seq<char>> {
    (match named {
        Some(p) => seq![p],
        None => Seq::empty(),
    }) + (match beside {
        Some(d) => seq![joined(d, "pirs"@)],
        None => Seq::empty(),
    }) + path.map_values(|d: Seq<char>| joined(d, "pirs"@))
}

/// Where the `pirs` program is looked for, in order. The first of these that is a file is it.
pub fn pirs_candidates(named: Option<&str>, beside: Option<&str>, path: &[String]) -> (r: Vec<String>)
    ensures
        r.deep_view() == pirs_places(
            match named {
                Some(p) => Some(p@),
                None => None,
            },
            match beside {
                Some(d) => Some(d@),
                None => None,
            },
            path.deep_view(),
        ),
{
    let mut out: Vec<String> = Vec::new();
    if let Some(p) = named {
        out.push(owned(p));
    }
    if let Some(d) = beside {
        out.push(join_path(d, "pirs"));
    }
    let ghost head = out.deep_view();
    let ghost tail = path.deep_view().map_values(|d: Seq<char>| joined(d, "pirs"@));
    let n: usize = path.len();
    let mut i: usize = 0;
    assert(head + tail.take(0) =~= head);
    while i < n
        invariant
            i <= n,
            n == path@.len(),
            tail == path.deep_view().map_values(|d: Seq<char>| joined(d, "pirs"@)),
            out.deep_view() == head + tail.take(i as int),
        decreases n - i,
    {
        let ghost before = out.deep_view();
        out.push(join_path(path[i].as_str(), "pirs"));
        proof {
            assert(path.deep_view()[i as int] == path@[i as int]@);
            assert(out.deep_view() =~= before.push(tail[i as int]));
            assert(head + tail.take(i + 1) =~= before.push(tail[i as int]));
        }
        i = i + 1;
    }
    proof {
        assert(tail.take(n as int) =~= tail);
        let named_view = match named {
            Some(p) => Some(p@),
            None => None,
        };
        let beside_view = match beside {
            Some(d) => Some(d@),
            None => None,
        };
        assert(out.deep_view() =~= pirs_places(named_view, beside_view, path.deep_view()));
    }
    out
}

/// What the defaults are, and that they only stand in for what is left open: what the options say
/// stays.
pub proof fn lemma_defaults_fill(o: WorkView)
    ensures
        ({
            let d = with_defaults(o);
            &&& o.model.len() > 0 ==> d.model == o.model
            &&& o.model.len() == 0 ==> d.model == "qwen3.5-plus"@
            &&& o.strategy.len() > 0 ==> d.strategy == o.strategy
            &&& o.strategy.len() == 0 ==> d.strategy == "plan-exec"@
            &&& o.plan_model is Some && o.plan_model->0.len() > 0 ==> d.plan_model == o.plan_model
            &&& o.plan_model is None || o.plan_model->0.len() == 0 ==> d.plan_model == Some(
                "deepseek-v4-pro"@,
            )
            &&& d.cwd == o.cwd && d.prompt == o.prompt && d.max_turns == o.max_turns
            &&& d.sequential == o.sequential
        }),
{
}

/// The options of a command line: what it names, its words as the prompt with a space between, and
/// forty turns where it names none.
pub proof fn lemma_options_of(args: WorkArgs, cwd: Seq<char>)
    ensures
        ({
            let o = options_of(args, cwd);
            let words = join(args.prompt.deep_view(), " "@);
            &&& o.cwd == cwd
            &&& args.model@.len() > 0 ==> o.model == args.model@
            &&& args.plan_model@.len() > 0 ==> o.plan_model == Some(args.plan_model@)
            &&& args.strategy@.len() > 0 ==> o.strategy == args.strategy@
            &&& words.len() > 0 ==> o.prompt == Some(words)
            &&& words.len() == 0 ==> o.prompt is None
            &&& args.max_turns is Some ==> o.max_turns == args.max_turns
            &&& args.max_turns is None ==> o.max_turns == Some(40usize)
            &&& o.sequential == args.sequential
        }),
{
}

/// Pinning a planner, phase by phase: every read-only phase runs on it, every other keeps its model;
/// scopes, steps and the name of the strategy stay.
pub proof fn lemma_pinned_phases(s: StrategyView, model: Seq<char>, i: int, j: int)
    requires
        0 <= i < s.steps.len(),
        0 <= j < phases_in(s.steps[i]).len(),
    ensures
        pinned(s, model).name == s.name,
        pinned(s, model).steps.len() == s.steps.len(),
        s.steps[i] is Solo <==> pinned(s, model).steps[i] is Solo,
        phases_in(pinned(s, model).steps[i]).len() == phases_in(s.steps[i]).len(),
        ({
            let p = phases_in(s.steps[i])[j];
            let q = phases_in(pinned(s, model).steps[i])[j];
            &&& q.scope == p.scope
            &&& p.scope is ReadOnly ==> q.model == Some(model)
            &&& p.scope is Full ==> q.model == p.model
        }),
{
}

/// What is counted: a step that is one phase counts once, one that fans out counts for each branch,
/// and every phase counts for its scope and no other.
pub proof fn lemma_phases_counted(
    steps: Seq<StepView>,
    p: PhaseView,
    branches: Seq<PhaseView>,
    ps: Seq<PhaseView>,
)
    ensures
        phases_of(Seq::empty()) == Seq::<PhaseView>::empty(),
        phases_of(steps.push(StepView::Solo(p))) == phases_of(steps).push(p),
        phases_of(steps.push(StepView::Fan { branches })) == phases_of(steps) + branches,
        p.scope is ReadOnly ==> count_scope(ps.push(p), ToolScope::ReadOnly) == count_scope(
            ps,
            ToolScope::ReadOnly,
        ) + 1 && count_scope(ps.push(p), ToolScope::Full) == count_scope(ps, ToolScope::Full),
        p.scope is Full ==> count_scope(ps.push(p), ToolScope::Full) == count_scope(
            ps,
            ToolScope::Full,
        ) + 1 && count_scope(ps.push(p), ToolScope::ReadOnly) == count_scope(
            ps,
            ToolScope::ReadOnly,
        ),
        count_scope(Seq::empty(), ToolScope::Full) == 0,
        models_of(ps.push(p)) == models_of(ps).push(p.model),
{
    assert(phases_of(Seq::<StepView>::empty()) =~= Seq::<PhaseView>::empty());
    assert(steps.push(StepView::Solo(p)).drop_last() =~= steps);
    assert(steps.push(StepView::Fan { branches }).drop_last() =~= steps);
    assert(phases_of(steps) + seq![p] =~= phases_of(steps).push(p));
    assert(ps.push(p).drop_last() =~= ps);
    assert(models_of(ps.push(p)) =~= models_of(ps).push(p.model));
}

/// Where the `pirs` program is looked for: first where it was named, beside this program next, and
/// in the directories of the search path, in their order, last.
pub proof fn lemma_pirs_places(named: Seq<char>, beside: Seq<char>, path: Seq<Seq<char>>, i: int)
    requires
        0 <= i < path.len(),
    ensures
        pirs_places(Some(named), Some(beside), path).len() == path.len() + 2,
        pirs_places(Some(named), Some(beside), path)[0] == named,
        pirs_places(Some(named), Some(beside), path)[1] == joined(beside, "pirs"@),
        pirs_places(Some(named), Some(beside), path)[i + 2] == joined(path[i], "pirs"@),
        pirs_places(None, Some(beside), path)[0] == joined(beside, "pirs"@),
        pirs_places(None, None, path).len() == path.len(),
        pirs_places(None, None, path)[i] == joined(path[i], "pirs"@),
{
}

/// The arguments of the `pirs` program say what the options say, and end with the prompt.
pub proof fn lemma_delegate_args(o: WorkView, prompt: Seq<char>, n: usize)
    requires
        o.plan_model is Some,
        o.max_turns == Some(n),
    ensures
        delegate_args(o, prompt) == seq![
            "--strategy"@,
            o.strategy,
            "--model"@,
            o.model,
            "--plan-model"@,
            o.plan_model->0,
            "--max-turns"@,
            decimal(n as nat),
            prompt,
        ],
{
}

/// What is said: of a strategy that is not there, before a session, and to the agent; each names what
/// it is about.
pub proof fn lemma_work_texts(name: Seq<char>, cwd: Seq<char>, o: WorkView, s: StrategyView)
    requires
        o.plan_model is Some,
    ensures
        unknown_strategy(name) == "unknown strategy "@ + quoted_text(name),
        banner_text(o, s) == "[pirs-work: cwd="@ + o.cwd + " model="@ + o.model + " plan_model="@ + (
        "Some("@ + quoted_text(o.plan_model->0) + ")"@) + " strategy="@ + s.name + " phases="@
            + decimal(s.steps.len()) + "]"@,
        coding_prompt(cwd) == "You are pirs-work, a coding agent working in `"@ + cwd
            + "`.\nPrefer small, correct edits. Use tools to read and search before writing.\nFix source, not tests, unless the user asked to change tests.\nRun project tests after edits when possible. Be concise."@,
{
}

} // verus!
