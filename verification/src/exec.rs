use vstd::prelude::*;

use crate::env::EnvMap;
use crate::error::Error;
use crate::plan;
use crate::strutil::int_str;
use crate::workflow::Shell;

verus! {

/// Which of the child's streams are passed through; a disabled stream is
/// redirected to the null device.
pub struct OutputMode {
    pub stdout: bool,
    pub stderr: bool,
}

/// Judges plans into concrete work and outcomes; the spawning itself
/// happens outside, stage by stage.
pub struct ExecutionEngine {
    pub output: OutputMode,
}

/// One command ready to spawn: the rendered script, its effective
/// environment, shell and working directory.
pub struct Work {
    pub command: String,
    pub env: EnvMap,
    pub shell: Shell,
    pub workdir: Option<String>,
}

/// One work item: the tasks of one invocation of one node, run in order
/// on one worker; the first failure aborts the item.
pub struct WorkItem {
    pub tasks: Vec<Work>,
}

/// The composed environment of a task: plan-level, node-level,
/// invocation-level and task-level variables, a later level overriding
/// an earlier one.
pub open spec fn effective_env_spec(
    plan_env: Map<Seq<char>, Seq<char>>,
    node_env: Map<Seq<char>, Seq<char>>,
    inv_env: Map<Seq<char>, Seq<char>>,
    task_env: Map<Seq<char>, Seq<char>>,
) -> Map<Seq<char>, Seq<char>> {
    plan_env.union_prefer_right(node_env).union_prefer_right(inv_env).union_prefer_right(task_env)
}

/// Composes the environment of one task.
pub fn effective_env(plan_env: &EnvMap, node_env: &EnvMap, inv_env: &EnvMap, task_env: &EnvMap) -> (r:
    EnvMap)
    requires
        plan_env.wf(),
        node_env.wf(),
        inv_env.wf(),
        task_env.wf(),
    ensures
        r.wf(),
        r@ == effective_env_spec(plan_env@, node_env@, inv_env@, task_env@),
{
    let mut r = plan_env.duplicate();
    r.extend_with(node_env);
    r.extend_with(inv_env);
    r.extend_with(task_env);
    r
}

/// The value of each key of a composed environment is the value from the
/// last of plan, node, invocation and task environment that defines it.
pub proof fn lemma_effective_env_last_writer(
    p: Map<Seq<char>, Seq<char>>,
    n: Map<Seq<char>, Seq<char>>,
    i: Map<Seq<char>, Seq<char>>,
    t: Map<Seq<char>, Seq<char>>,
    k: Seq<char>,
)
    ensures
        effective_env_spec(p, n, i, t).dom().contains(k) <==> (p.dom().contains(k)
            || n.dom().contains(k) || i.dom().contains(k) || t.dom().contains(k)),
        t.dom().contains(k) ==> effective_env_spec(p, n, i, t)[k] == t[k],
        !t.dom().contains(k) && i.dom().contains(k) ==> effective_env_spec(p, n, i, t)[k] == i[k],
        !t.dom().contains(k) && !i.dom().contains(k) && n.dom().contains(k)
            ==> effective_env_spec(p, n, i, t)[k] == n[k],
        !t.dom().contains(k) && !i.dom().contains(k) && !n.dom().contains(k) && p.dom().contains(k)
            ==> effective_env_spec(p, n, i, t)[k] == p[k],
{
}

/// The default shell: "sh" with the single argument "-c".
pub fn default_shell() -> (r: Shell)
    ensures
        r.program@ == "sh"@,
        r.args@.len() == 1,
        r.args@[0]@ == "-c"@,
{
    let mut args: Vec<String> = Vec::new();
    args.push("-c".to_owned());
    Shell { program: "sh".to_owned(), args }
}

/// The effective shell of a task: the task's, else the node's, else the
/// default.
pub open spec fn effective_shell_ok(
    task_shell: &Option<Shell>,
    node_shell: &Option<Shell>,
    out: &Shell,
) -> bool {
    match task_shell {
        Some(s) => out.program@ == s.program@ && out.args@ == s.args@,
        None => match node_shell {
            Some(s) => out.program@ == s.program@ && out.args@ == s.args@,
            None => out.program@ == "sh"@ && out.args@.len() == 1 && out.args@[0]@ == "-c"@,
        },
    }
}

/// Picks the effective shell of a task.
pub fn effective_shell(task_shell: &Option<Shell>, node_shell: &Option<Shell>) -> (r: Shell)
    ensures
        effective_shell_ok(task_shell, node_shell, &r),
{
    match task_shell {
        Some(s) => s.duplicate(),
        None => match node_shell {
            Some(s) => s.duplicate(),
            None => default_shell(),
        },
    }
}

/// The effective working directory of a task: the task's, else the
/// node's, else none.
pub open spec fn effective_workdir_ok(
    task_wd: &Option<String>,
    node_wd: &Option<String>,
    out: &Option<String>,
) -> bool {
    match task_wd {
        Some(w) => out matches Some(o) && o@ == w@,
        None => match node_wd {
            Some(w) => out matches Some(o) && o@ == w@,
            None => out is None,
        },
    }
}

/// Picks the effective working directory of a task.
pub fn effective_workdir(task_wd: &Option<String>, node_wd: &Option<String>) -> (r: Option<String>)
    ensures
        effective_workdir_ok(task_wd, node_wd, &r),
{
    match task_wd {
        Some(w) => Some(w.clone()),
        None => match node_wd {
            Some(w) => Some(w.clone()),
            None => None,
        },
    }
}

/// One prepared command against its sources.
pub open spec fn work_ok(
    plan_env: Map<Seq<char>, Seq<char>>,
    nd: &plan::Node,
    vi: int,
    ti: int,
    w: &Work,
) -> bool {
    &&& w.command@ == nd.tasks@[ti].cmd@
    &&& w.env.wf()
    &&& w.env@ == effective_env_spec(
        plan_env,
        nd.env@,
        nd.invocations@[vi].env@,
        nd.tasks@[ti].env@,
    )
    &&& effective_shell_ok(&nd.tasks@[ti].shell, &nd.shell, &w.shell)
    &&& effective_workdir_ok(&nd.tasks@[ti].workdir, &nd.workdir, &w.workdir)
}

impl ExecutionEngine {
    pub fn new(output: OutputMode) -> (r: ExecutionEngine)
        ensures
            r.output == output,
    {
        ExecutionEngine { output }
    }

    /// Prepares the work of one resolved node: one item per invocation,
    /// holding that invocation's tasks in order with their effective
    /// environment, shell and working directory.
    pub fn node_work(&self, plan_env: &EnvMap, nd: &plan::Node) -> (r: Vec<WorkItem>)
        requires
            plan_env.wf(),
            nd.wf(),
        ensures
            r@.len() == nd.invocations@.len(),
            forall|vi: int|
                0 <= vi < r@.len() ==> (#[trigger] r@[vi]).tasks@.len() == nd.tasks@.len(),
            forall|vi: int, ti: int|
                0 <= vi < r@.len() && 0 <= ti < nd.tasks@.len() ==> work_ok(
                    plan_env@,
                    nd,
                    vi,
                    ti,
                    &(#[trigger] r@[vi].tasks@[ti]),
                ),
    {
        let mut items: Vec<WorkItem> = Vec::new();
        let nv = nd.invocations.len();
        let mut vi: usize = 0;
        while vi < nv
            invariant
                plan_env.wf(),
                nd.wf(),
                nv == nd.invocations@.len(),
                vi <= nv,
                items@.len() == vi,
                forall|a: int|
                    0 <= a < vi ==> (#[trigger] items@[a]).tasks@.len() == nd.tasks@.len(),
                forall|a: int, ti: int|
                    0 <= a < vi && 0 <= ti < nd.tasks@.len() ==> work_ok(
                        plan_env@,
                        nd,
                        a,
                        ti,
                        &(#[trigger] items@[a].tasks@[ti]),
                    ),
            decreases nv - vi,
        {
            let mut tasks: Vec<Work> = Vec::new();
            let nt = nd.tasks.len();
            let mut ti: usize = 0;
            while ti < nt
                invariant
                    plan_env.wf(),
                    nd.wf(),
                    nv == nd.invocations@.len(),
                    vi < nv,
                    nt == nd.tasks@.len(),
                    ti <= nt,
                    tasks@.len() == ti,
                    forall|b: int|
                        0 <= b < ti ==> work_ok(
                            plan_env@,
                            nd,
                            vi as int,
                            b,
                            &(#[trigger] tasks@[b]),
                        ),
                decreases nt - ti,
            {
                let task = &nd.tasks[ti];
                proof {
                    assert(nd.tasks@[ti as int].wf());
                    assert(nd.invocations@[vi as int].wf());
                }
                let env = effective_env(plan_env, &nd.env, &nd.invocations[vi].env, &task.env);
                let w = Work {
                    command: task.cmd.clone(),
                    env,
                    shell: effective_shell(&task.shell, &nd.shell),
                    workdir: effective_workdir(&task.workdir, &nd.workdir),
                };
                tasks.push(w);
                ti += 1;
            }
            items.push(WorkItem { tasks });
            vi += 1;
        }
        items
    }
}

/// The error message for a child that exited with a non-zero code, or
/// did not exit at all.
pub open spec fn child_err_msg(cmd: Seq<char>, code: Option<i32>) -> Seq<char> {
    match code {
        Some(c) => "command: "@ + cmd + " failed to execute with code "@ + int_str(c as int),
        None => "command: "@ + cmd + " was terminated by a signal"@,
    }
}

/// Judges one child's exit: success exactly on exit code zero; a
/// non-zero code or a signal termination is a `ChildProcess` error
/// naming the command.
pub fn child_outcome(cmd: &str, code: Option<i32>) -> (r: Result<(), Error>)
    ensures
        r is Ok <==> code == Some(0i32),
        r matches Err(e) ==> e matches Error::ChildProcess(m) && m@ == child_err_msg(cmd@, code),
{
    match code {
        Some(c) => {
            if c == 0 {
                Ok(())
            } else {
                let mut m = "command: ".to_owned();
                m.append(cmd);
                m.append(" failed to execute with code ");
                m.append(crate::strutil::i32_to_string(c).as_str());
                Err(Error::ChildProcess(m))
            }
        },
        None => {
            let mut m = "command: ".to_owned();
            m.append(cmd);
            m.append(" was terminated by a signal");
            Err(Error::ChildProcess(m))
        },
    }
}

/// The errors among a stage's outcomes, in arrival order.
pub open spec fn failures_of(s: Seq<Result<(), Error>>) -> Seq<Error>
    decreases s.len(),
{
    if s.len() == 0 {
        Seq::empty()
    } else {
        failures_of(s.drop_last()) + (match s.last() {
            Result::Err(e) => seq![e],
            Result::Ok(_) => Seq::empty(),
        })
    }
}

/// Aggregates a stage's outcomes: success when every item succeeded,
/// otherwise all collected failures together, in order.
pub fn aggregate_outcomes(outcomes: Vec<Result<(), Error>>) -> (r: Result<(), Error>)
    ensures
        r is Ok <==> failures_of(outcomes@).len() == 0,
        r matches Err(e) ==> e matches Error::Many(errs) && errs@ == failures_of(outcomes@),
{
    let mut errs: Vec<Error> = Vec::new();
    let mut rest = outcomes;
    let ghost all = rest@;
    let ghost consumed: int = 0;
    proof {
        assert(all.take(0) =~= Seq::<Result<(), Error>>::empty());
    }
    let mut i: usize = 0;
    let n = rest.len();
    while i < n
        invariant
            n == all.len(),
            i <= n,
            rest@ == all.skip(i as int),
            errs@ == failures_of(all.take(i as int)),
        decreases n - i,
    {
        let out = rest.remove(0);
        proof {
            assert(all.skip(i as int)[0] == all[i as int]);
            assert(rest@ =~= all.skip(i as int + 1));
            assert(all.take(i as int + 1).drop_last() =~= all.take(i as int));
            assert(all.take(i as int + 1).last() == all[i as int]);
        }
        match out {
            Ok(_) => {
                proof {
                    assert(errs@ =~= failures_of(all.take(i as int + 1)));
                }
            },
            Err(e) => {
                errs.push(e);
                proof {
                    assert(errs@ =~= failures_of(all.take(i as int + 1)));
                }
            },
        }
        i += 1;
    }
    proof {
        assert(all.take(n as int) =~= all);
    }
    if errs.len() == 0 {
        Ok(())
    } else {
        Err(Error::Many(errs))
    }
}

} // verus!
