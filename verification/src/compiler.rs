use vstd::prelude::*;

use crate::assoc::{assoc_has_key, assoc_unique, names_of};
use crate::env::EnvMap;
use crate::error::Error;
use crate::matrix::{coord_str, kept_points, point_env};
use crate::plan;
use crate::render::{build_args, build_ctx, hb_render, json_of, render_script, ArgTree, ArgsView};
use crate::stratify::{
    closure, dep_map, determine_order, reachable, sets_union, stage_sets, strata,
};
use crate::workflow::{env_block_spec, opt_env_view, Env, Node, Shell, Task, Workflow};

verus! {

/// The plan-level environment: the workflow's block, compiled.
pub open spec fn workflow_env_spec(w: &Workflow, proc: Map<Seq<char>, Seq<char>>) -> Map<
    Seq<char>,
    Seq<char>,
> {
    match w.env {
        Some(ref e) => env_block_spec(e, proc),
        None => Map::empty(),
    }
}

/// The node-level environment: the node's block, compiled.
pub open spec fn node_env_spec(n: &Node, proc: Map<Seq<char>, Seq<char>>) -> Map<
    Seq<char>,
    Seq<char>,
> {
    match n.env {
        Some(ref e) => env_block_spec(e, proc),
        None => Map::empty(),
    }
}

/// An optional shell, carried verbatim.
pub open spec fn shell_carried(src: &Option<Shell>, out: &Option<Shell>) -> bool {
    match (src, out) {
        (Some(a), Some(b)) => a.program@ == b.program@ && a.args@ == b.args@,
        (None, None) => true,
        _ => false,
    }
}

/// An optional working directory, carried verbatim.
pub open spec fn workdir_carried(src: &Option<String>, out: &Option<String>) -> bool {
    match (src, out) {
        (Some(a), Some(b)) => a@ == b@,
        (None, None) => true,
        _ => false,
    }
}

/// One rendered task against its source: the command is the strict
/// rendering of the script, and env, shell and workdir are carried.
pub open spec fn plan_task_ok(src: Task, out: plan::Task, ctx: ArgsView) -> bool {
    &&& hb_render(src.script@, json_of(ctx)) == Some(out.cmd@)
    &&& out.env@ == opt_env_view(&src.env)
    &&& out.env.wf()
    &&& shell_carried(&src.shell, &out.shell)
    &&& workdir_carried(&src.workdir, &out.workdir)
}

/// A resolved plan node against its source node.
pub open spec fn plan_node_ok(
    src: Node,
    out: plan::Node,
    ctx: ArgsView,
    proc: Map<Seq<char>, Seq<char>>,
) -> bool {
    &&& out.env@ == node_env_spec(&src, proc)
    &&& out.env.wf()
    &&& shell_carried(&src.shell, &out.shell)
    &&& workdir_carried(&src.workdir, &out.workdir)
    &&& out.tasks@.len() == src.tasks@.len()
    &&& forall|i: int|
        0 <= i < src.tasks@.len() ==> plan_task_ok(src.tasks@[i], #[trigger] out.tasks@[i], ctx)
    &&& match src.matrix {
        Some(ref m) => {
            &&& out.invocations@.len() == kept_points(m).len()
            &&& forall|i: int|
                0 <= i < out.invocations@.len() ==> (#[trigger] out.invocations@[i]).coords@
                    == coord_str(kept_points(m)[i]) && out.invocations@[i].env@ == point_env(
                    m.spec_dimensions(),
                    kept_points(m)[i],
                ) && out.invocations@[i].env.wf()
        },
        None => out.invocations@.len() == 1 && out.invocations@[0].coords@ == Seq::<char>::empty()
            && out.invocations@[0].env@ == Map::<Seq<char>, Seq<char>>::empty(),
    }
}

/// The name sets of a plan's stages.
pub open spec fn plan_stage_sets(ss: Seq<plan::Stage>) -> Seq<Set<Seq<char>>> {
    ss.map_values(|st: plan::Stage| names_of(st.nodes@).to_set())
}

/// Whether this node's planning compiles a regex: a capture in its
/// environment block, or a matrix filter.
pub open spec fn node_uses_regex(n: Node) -> bool {
    ||| match n.env {
        Some(ref e) => e.capture is Some,
        None => false,
    }
    ||| match n.matrix {
        Some(ref m) => m.spec_filter() is Some,
        None => false,
    }
}

/// Whether planning these targets compiles any regex at all.
pub open spec fn regex_used(w: &Workflow, tset: Set<Seq<char>>) -> bool {
    ||| match w.env {
        Some(ref e) => e.capture is Some,
        None => false,
    }
    ||| exists|nm: Seq<char>|
        #[trigger] closure(w, tset).contains(nm) && w.nodes_map().dom().contains(nm)
            && node_uses_regex(w.nodes_map()[nm])
}

/// Whether some planned task's template fails to render strictly.
pub open spec fn render_fails(w: &Workflow, tset: Set<Seq<char>>, ctx: ArgsView) -> bool {
    exists|nm: Seq<char>, ti: int|
        #[trigger] closure(w, tset).contains(nm) && w.nodes_map().dom().contains(nm) && 0 <= ti
            < w.nodes_map()[nm].tasks@.len() && hb_render(
            (#[trigger] w.nodes_map()[nm].tasks@[ti]).script@,
            json_of(ctx),
        ) is None
}

/// Copies an optional shell.
fn clone_opt_shell(o: &Option<Shell>) -> (r: Option<Shell>)
    ensures
        shell_carried(o, &r),
{
    match o {
        Some(s) => Some(s.duplicate()),
        None => None,
    }
}

/// Copies an optional working directory.
fn clone_opt_string(o: &Option<String>) -> (r: Option<String>)
    ensures
        workdir_carried(o, &r),
{
    match o {
        Some(s) => Some(s.clone()),
        None => None,
    }
}

/// Resolves one node: compiles its environment block, renders each task
/// strictly against the argument context, and expands its matrix.
fn render_node(nd: &Node, ctx: &ArgTree, proc_env: &EnvMap) -> (r: Result<plan::Node, Error>)
    requires
        nd.wf(),
        proc_env.wf(),
    ensures
        r matches Ok(out) ==> plan_node_ok(*nd, out, ctx@, proc_env@) && out.wf(),
        r matches Err(e) ==> match e {
            Error::RegexError(_) => node_uses_regex(*nd),
            Error::Handlebars(_) => exists|ti: int|
                0 <= ti < nd.tasks@.len() && hb_render(
                    (#[trigger] nd.tasks@[ti]).script@,
                    json_of(ctx@),
                ) is None,
            _ => false,
        },
{
    let env = match &nd.env {
        Some(e) => match e.compile(proc_env) {
            Ok(m) => m,
            Err(err) => {
                proof {
                    assert(err matches Error::RegexError(_));
                }
                return Err(err);
            },
        },
        None => EnvMap::new(),
    };
    let shell = clone_opt_shell(&nd.shell);
    let workdir = clone_opt_string(&nd.workdir);
    let mut tasks: Vec<plan::Task> = Vec::new();
    let nt = nd.tasks.len();
    let mut ti: usize = 0;
    while ti < nt
        invariant
            nd.wf(),
            nt == nd.tasks@.len(),
            ti <= nt,
            tasks@.len() == ti,
            forall|i: int|
                0 <= i < ti ==> plan_task_ok(nd.tasks@[i], #[trigger] tasks@[i], ctx@),
        decreases nt - ti,
    {
        let src = &nd.tasks[ti];
        let cmd = match render_script(src.script.as_str(), ctx) {
            Ok(s) => s,
            Err(err) => {
                proof {
                    assert(hb_render(nd.tasks@[ti as int].script@, json_of(ctx@)) is None);
                }
                return Err(err);
            },
        };
        let tenv = match &src.env {
            Some(m) => m.duplicate(),
            None => EnvMap::new(),
        };
        proof {
            assert(nd.tasks@[ti as int].wf());
        }
        let out_task = plan::Task {
            cmd,
            env: tenv,
            shell: clone_opt_shell(&src.shell),
            workdir: clone_opt_string(&src.workdir),
        };
        tasks.push(out_task);
        ti += 1;
    }
    let invocations = match &nd.matrix {
        Some(m) => match m.compile() {
            Ok(v) => v,
            Err(err) => {
                proof {
                    assert(err matches Error::RegexError(_));
                    assert(m.spec_filter() is Some);
                }
                return Err(err);
            },
        },
        None => {
            let mut one: Vec<plan::Invocation> = Vec::new();
            one.push(plan::Invocation { coords: String::new(), env: EnvMap::new() });
            one
        },
    };
    Ok(plan::Node { invocations, tasks, env, shell, workdir })
}

/// Holds a workflow and compiles execution plans from it.
pub struct Compiler {
    pub workflow: Workflow,
}

/// Summary information of one node, for listings.
pub struct NodeInfo {
    pub name: String,
    pub description: Option<String>,
    pub pre: Option<Vec<String>>,
}

impl Compiler {
    pub fn new(wf: Workflow) -> (r: Compiler)
        ensures
            r.workflow == wf,
    {
        Compiler { workflow: wf }
    }

    /// Resolves the targets' prerequisites into stages; see
    /// [`determine_order`].
    pub fn determine_order(&self, targets: &Vec<String>) -> (r: Result<Vec<Vec<String>>, Error>)
        requires
            self.workflow.wf(),
        ensures
            match r {
                Ok(stages) => {
                    &&& Some(stage_sets(stages@)) == strata(
                        dep_map(&self.workflow, names_of(targets@).to_set()),
                        Set::empty(),
                    )
                    &&& closure(&self.workflow, names_of(targets@).to_set()).subset_of(
                        self.workflow.nodes_map().dom(),
                    )
                    &&& forall|i: int|
                        0 <= i < stages@.len() ==> names_of(
                            (#[trigger] stages@[i])@,
                        ).no_duplicates()
                },
                Err(e) => match e {
                    Error::NotFound(n) => reachable(&self.workflow, names_of(targets@).to_set(), n@)
                        && !self.workflow.nodes_map().dom().contains(n@),
                    Error::NodeRecursion => closure(
                        &self.workflow,
                        names_of(targets@).to_set(),
                    ).subset_of(self.workflow.nodes_map().dom()) && strata(
                        dep_map(&self.workflow, names_of(targets@).to_set()),
                        Set::empty(),
                    ) is None,
                    _ => false,
                },
            },
    {
        determine_order(&self.workflow, targets)
    }

    /// The stage structure for a target set, as lists of node names.
    pub fn describe(&self, targets: &Vec<String>) -> (r: Result<Vec<Vec<String>>, Error>)
        requires
            self.workflow.wf(),
        ensures
            match r {
                Ok(stages) => {
                    &&& Some(stage_sets(stages@)) == strata(
                        dep_map(&self.workflow, names_of(targets@).to_set()),
                        Set::empty(),
                    )
                    &&& closure(&self.workflow, names_of(targets@).to_set()).subset_of(
                        self.workflow.nodes_map().dom(),
                    )
                    &&& forall|i: int|
                        0 <= i < stages@.len() ==> names_of(
                            (#[trigger] stages@[i])@,
                        ).no_duplicates()
                },
                Err(e) => match e {
                    Error::NotFound(n) => reachable(&self.workflow, names_of(targets@).to_set(), n@)
                        && !self.workflow.nodes_map().dom().contains(n@),
                    Error::NodeRecursion => closure(
                        &self.workflow,
                        names_of(targets@).to_set(),
                    ).subset_of(self.workflow.nodes_map().dom()) && strata(
                        dep_map(&self.workflow, names_of(targets@).to_set()),
                        Set::empty(),
                    ) is None,
                    _ => false,
                },
            },
    {
        self.determine_order(targets)
    }

    /// Summaries of all nodes, in declaration order.
    pub fn list(&self) -> (r: Vec<NodeInfo>)
        ensures
            r@.len() == self.workflow.nodes@.len(),
            forall|i: int|
                0 <= i < r@.len() ==> {
                    let e = #[trigger] self.workflow.nodes@[i];
                    &&& (#[trigger] r@[i]).name@ == e.0@
                    &&& workdir_carried(&e.1.description, &r@[i].description)
                    &&& match (&e.1.pre, &r@[i].pre) {
                        (Some(a), Some(b)) => a@ == b@,
                        (None, None) => true,
                        _ => false,
                    }
                },
    {
        let mut out: Vec<NodeInfo> = Vec::new();
        let n = self.workflow.nodes.len();
        let mut i: usize = 0;
        while i < n
            invariant
                n == self.workflow.nodes@.len(),
                i <= n,
                out@.len() == i,
                forall|j: int|
                    0 <= j < i ==> {
                        let e = #[trigger] self.workflow.nodes@[j];
                        &&& (#[trigger] out@[j]).name@ == e.0@
                        &&& workdir_carried(&e.1.description, &out@[j].description)
                        &&& match (&e.1.pre, &out@[j].pre) {
                            (Some(a), Some(b)) => a@ == b@,
                            (None, None) => true,
                            _ => false,
                        }
                    },
            decreases n - i,
        {
            let entry = &self.workflow.nodes[i];
            let pre = match &entry.1.pre {
                Some(v) => Some(crate::strutil::clone_strings(v)),
                None => None,
            };
            out.push(
                NodeInfo {
                    name: entry.0.clone(),
                    description: clone_opt_string(&entry.1.description),
                    pre,
                },
            );
            i += 1;
        }
        out
    }

    /// Compiles an execution plan: resolves the targets into stages,
    /// compiles the environment blocks against the given process
    /// environment, renders every task strictly against the structured
    /// arguments, and expands every matrix.
    pub fn plan(&self, targets: &Vec<String>, args: &Vec<(String, String)>, proc_env: &EnvMap) -> (r:
        Result<plan::ExecutionPlan, Error>)
        requires
            self.workflow.wf(),
            proc_env.wf(),
        ensures
            r matches Ok(p) ==> {
                let w = &self.workflow;
                let tset = names_of(targets@).to_set();
                let ctx = build_ctx(args@);
                &&& p.wf()
                &&& Some(plan_stage_sets(p.stages@)) == strata(dep_map(w, tset), Set::empty())
                &&& forall|i: int|
                    0 <= i < p.stages@.len() ==> names_of(
                        (#[trigger] p.stages@[i]).nodes@,
                    ).no_duplicates()
                &&& p.env@ == workflow_env_spec(w, proc_env@)
                &&& forall|nm: Seq<char>|
                    #[trigger] closure(w, tset).contains(nm) ==> p.nodes_map().dom().contains(nm)
                        && plan_node_ok(w.nodes_map()[nm], p.nodes_map()[nm], ctx, proc_env@)
                &&& closure(w, tset).subset_of(w.nodes_map().dom())
                &&& forall|nm: Seq<char>|
                    #[trigger] p.nodes_map().dom().contains(nm) ==> closure(w, tset).contains(nm)
            },
            r matches Err(e) ==> match e {
                Error::NotFound(n) => reachable(&self.workflow, names_of(targets@).to_set(), n@)
                    && !self.workflow.nodes_map().dom().contains(n@),
                Error::NodeRecursion => closure(&self.workflow, names_of(targets@).to_set()).subset_of(
                    self.workflow.nodes_map().dom(),
                ) && strata(
                    dep_map(&self.workflow, names_of(targets@).to_set()),
                    Set::empty(),
                ) is None,
                Error::RegexError(_) => regex_used(&self.workflow, names_of(targets@).to_set())
                    && closure(&self.workflow, names_of(targets@).to_set()).subset_of(
                    self.workflow.nodes_map().dom(),
                ) && strata(
                    dep_map(&self.workflow, names_of(targets@).to_set()),
                    Set::empty(),
                ) is Some,
                Error::Handlebars(_) => render_fails(
                    &self.workflow,
                    names_of(targets@).to_set(),
                    build_ctx(args@),
                ) && closure(&self.workflow, names_of(targets@).to_set()).subset_of(
                    self.workflow.nodes_map().dom(),
                ) && strata(
                    dep_map(&self.workflow, names_of(targets@).to_set()),
                    Set::empty(),
                ) is Some,
                _ => false,
            },
            closure(&self.workflow, names_of(targets@).to_set()).subset_of(
                self.workflow.nodes_map().dom(),
            ) && strata(dep_map(&self.workflow, names_of(targets@).to_set()), Set::empty())
                is Some && !regex_used(&self.workflow, names_of(targets@).to_set())
                && !render_fails(
                &self.workflow,
                names_of(targets@).to_set(),
                build_ctx(args@),
            ) ==> r is Ok,
    {
        let ghost w = &self.workflow;
        let ghost tset = names_of(targets@).to_set();
        let ctx = build_args(args);
        let stages = match self.determine_order(targets) {
            Ok(s) => s,
            Err(e) => {
                proof {
                    assert(e matches Error::NotFound(n) ==> closure(w, tset).contains(n@));
                }
                return Err(e);
            },
        };
        let plan_env = match &self.workflow.env {
            Some(e) => match e.compile(proc_env) {
                Ok(m) => m,
                Err(err) => {
                    proof {
                        assert(err matches Error::RegexError(_));
                    }
                    return Err(err);
                },
            },
            None => EnvMap::new(),
        };
        let ghost sts = stage_sets(stages@);
        let mut out_stages: Vec<plan::Stage> = Vec::new();
        let mut out_nodes: Vec<(String, plan::Node)> = Vec::new();
        let ns = stages.len();
        let mut s: usize = 0;
        proof {
            assert(plan_stage_sets(out_stages@) =~= sts.take(0));
        }
        while s < ns
            invariant
                self.workflow.wf(),
                proc_env.wf(),
                w == &self.workflow,
                tset == names_of(targets@).to_set(),
                ctx@ == build_ctx(args@),
                ns == stages@.len(),
                s <= ns,
                sts == stage_sets(stages@),
                Some(sts) == strata(dep_map(w, tset), Set::empty()),
                closure(w, tset).subset_of(w.nodes_map().dom()),
                forall|i: int| 0 <= i < ns ==> names_of((#[trigger] stages@[i])@).no_duplicates(),
                out_stages@.len() == s,
                plan_stage_sets(out_stages@) == sts.take(s as int),
                forall|i: int|
                    0 <= i < s ==> (#[trigger] out_stages@[i]).nodes@ == stages@[i]@,
                assoc_unique(out_nodes@),
                forall|i: int|
                    0 <= i < out_nodes@.len() ==> {
                        let e = #[trigger] out_nodes@[i];
                        &&& w.nodes_map().dom().contains(e.0@)
                        &&& e.1.wf()
                        &&& plan_node_ok(w.nodes_map()[e.0@], e.1, ctx@, proc_env@)
                    },
                forall|k: Seq<char>|
                    #[trigger] assoc_has_key(out_nodes@, k) <==> sets_union(
                        sts.take(s as int),
                    ).contains(k),
            decreases ns - s,
        {
            let stage = &stages[s];
            let nn = stage.len();
            let mut out_stage_names: Vec<String> = Vec::new();
            let mut n: usize = 0;
            while n < nn
                invariant
                    self.workflow.wf(),
                    proc_env.wf(),
                    w == &self.workflow,
                    tset == names_of(targets@).to_set(),
                    ctx@ == build_ctx(args@),
                    ns == stages@.len(),
                    s < ns,
                    stage == stages@[s as int],
                    nn == stage@.len(),
                    n <= nn,
                    sts == stage_sets(stages@),
                    Some(sts) == strata(dep_map(w, tset), Set::empty()),
                    closure(w, tset).subset_of(w.nodes_map().dom()),
                    forall|i: int|
                        0 <= i < ns ==> names_of((#[trigger] stages@[i])@).no_duplicates(),
                    out_stage_names@ == stage@.take(n as int),
                    assoc_unique(out_nodes@),
                    forall|i: int|
                        0 <= i < out_nodes@.len() ==> {
                            let e = #[trigger] out_nodes@[i];
                            &&& w.nodes_map().dom().contains(e.0@)
                            &&& e.1.wf()
                            &&& plan_node_ok(w.nodes_map()[e.0@], e.1, ctx@, proc_env@)
                        },
                    forall|k: Seq<char>|
                        #[trigger] assoc_has_key(out_nodes@, k) <==> sets_union(
                            sts.take(s as int),
                        ).contains(k) || names_of(stage@.take(n as int)).to_set().contains(k),
                decreases nn - n,
            {
                let name = &stage[n];
                proof {
                    crate::stratify::lemma_stages_cover_closure(w, tset, sts);
                    assert(names_of(stage@)[n as int] == name@);
                    assert(sts[s as int].contains(name@));
                    crate::stratify::lemma_sets_union_member(sts, s as int, name@);
                    assert(closure(w, tset).contains(name@));
                    assert(w.nodes_map().dom().contains(name@));
                }
                let nd = match self.workflow.get_node(name.as_str()) {
                    Some(nd) => nd,
                    None => {
                        proof {
                            assert(false);
                        }
                        return Err(Error::UnknownCommand);
                    },
                };
                proof {
                    assert(nd.wf()) by {
                        crate::assoc::lemma_assoc_map_dom(self.workflow.nodes@);
                        let i = choose|i: int|
                            0 <= i < self.workflow.nodes@.len() && (
                            #[trigger] self.workflow.nodes@[i]).0@ == name@;
                        crate::assoc::lemma_assoc_map_last_occurrence(self.workflow.nodes@, i);
                        assert(self.workflow.nodes@[i].1.wf());
                    }
                }
                let rendered = match render_node(nd, &ctx, proc_env) {
                    Ok(out) => out,
                    Err(err) => {
                        proof {
                            match err {
                                Error::RegexError(_) => {
                                    assert(regex_used(w, tset));
                                },
                                Error::Handlebars(_) => {
                                    assert(render_fails(w, tset, build_ctx(args@)));
                                },
                                _ => {},
                            }
                        }
                        return Err(err);
                    },
                };
                // the name has not been planned yet: earlier stages are
                // disjoint from this one, and the stage lists no name twice
                proof {
                    assert(!assoc_has_key(out_nodes@, name@)) by {
                        if sets_union(sts.take(s as int)).contains(name@) {
                            crate::stratify::lemma_sets_union_inv(sts.take(s as int), name@);
                            let j = choose|j: int|
                                0 <= j < sts.take(s as int).len() && #[trigger] sts.take(
                                    s as int,
                                )[j].contains(name@);
                            assert(sts[j].contains(name@));
                            assert(dep_map(w, tset).dom().finite()) by {
                                if !dep_map(w, tset).dom().finite() {
                                    assert(strata(dep_map(w, tset), Set::empty()) is None);
                                }
                            }
                            crate::stratify::lemma_strata_disjoint(
                                dep_map(w, tset),
                                Set::empty(),
                                sts,
                                j,
                                s as int,
                                name@,
                            );
                        }
                        if names_of(stage@.take(n as int)).to_set().contains(name@) {
                            let j = choose|j: int|
                                0 <= j < n && names_of(stage@.take(n as int))[j] == name@;
                            assert(names_of(stage@)[j] == name@);
                            assert(names_of(stage@).no_duplicates());
                        }
                    }
                }
                let ghost out_nodes0 = out_nodes@;
                out_nodes.push((name.clone(), rendered));
                out_stage_names.push(name.clone());
                proof {
                    assert(out_stage_names@ =~= stage@.take(n as int + 1));
                    assert forall|a: int, b: int|
                        0 <= a < b < out_nodes@.len() implies (#[trigger] out_nodes@[a]).0@ != (
                    #[trigger] out_nodes@[b]).0@ by {
                        if b < out_nodes@.len() - 1 {
                            assert(out_nodes0[a] == out_nodes@[a] && out_nodes0[b]
                                == out_nodes@[b]);
                        } else {
                            if out_nodes@[a].0@ == name@ {
                                assert(assoc_has_key(out_nodes0, name@)) by {
                                    assert((out_nodes0[a]).0@ == name@);
                                }
                            }
                        }
                    }
                    assert forall|k: Seq<char>|
                        #[trigger] assoc_has_key(out_nodes@, k) <==> (sets_union(
                        sts.take(s as int),
                    ).contains(k) || names_of(stage@.take(n as int + 1)).to_set().contains(k)) by {
                        if assoc_has_key(out_nodes@, k) {
                            let i = choose|i: int|
                                0 <= i < out_nodes@.len() && (#[trigger] out_nodes@[i]).0@ == k;
                            if i < out_nodes@.len() - 1 {
                                assert(assoc_has_key(out_nodes0, k)) by {
                                    assert((out_nodes0[i]).0@ == k);
                                }
                                if names_of(stage@.take(n as int)).to_set().contains(k) {
                                    let j = choose|j: int|
                                        0 <= j < n && (#[trigger] names_of(
                                            stage@.take(n as int),
                                        )[j]) == k;
                                    assert(names_of(stage@.take(n as int + 1))[j] == k);
                                    assert(names_of(stage@.take(n as int + 1)).to_set().contains(
                                        k,
                                    ));
                                }
                            } else {
                                assert(k == name@);
                                assert(names_of(stage@.take(n as int + 1))[n as int] == k);
                                assert(names_of(stage@.take(n as int + 1)).to_set().contains(k));
                            }
                        }
                        if sets_union(sts.take(s as int)).contains(k) {
                            assert(assoc_has_key(out_nodes0, k));
                            crate::stratify::lemma_has_key_extends(out_nodes0, out_nodes@, k);
                        } else if names_of(stage@.take(n as int + 1)).to_set().contains(k) {
                            let j = choose|j: int|
                                0 <= j < n + 1 && (#[trigger] names_of(
                                    stage@.take(n as int + 1),
                                )[j]) == k;
                            if j < n {
                                assert(names_of(stage@.take(n as int))[j] == k);
                                assert(names_of(stage@.take(n as int)).to_set().contains(k));
                                assert(assoc_has_key(out_nodes0, k));
                                crate::stratify::lemma_has_key_extends(out_nodes0, out_nodes@, k);
                            } else {
                                assert(k == name@);
                                assert((out_nodes@[out_nodes@.len() - 1]).0@ == k);
                            }
                        }
                    }
                }
                n += 1;
            }
            out_stages.push(plan::Stage { nodes: out_stage_names });
            proof {
                assert(stage@.take(nn as int) =~= stage@);
                assert(plan_stage_sets(out_stages@) =~= sts.take(s as int + 1)) by {
                    assert(plan_stage_sets(out_stages@).len() == s + 1);
                    assert forall|i: int| 0 <= i < s + 1 implies plan_stage_sets(out_stages@)[i]
                        == sts.take(s as int + 1)[i] by {
                        if i < s {
                            assert(plan_stage_sets(out_stages@)[i] == names_of(
                                out_stages@[i].nodes@,
                            ).to_set());
                            assert(out_stages@[i].nodes@ == stages@[i]@);
                        } else {
                            assert(out_stages@[i].nodes@ == stages@[s as int]@);
                        }
                        assert(sts[i] == names_of(stages@[i]@).to_set());
                    }
                }
                assert forall|k: Seq<char>| #[trigger]
                    assoc_has_key(out_nodes@, k) <==> sets_union(sts.take(s as int + 1)).contains(
                        k,
                    ) by {
                    crate::stratify::lemma_sets_union_take_step(sts, s as int, k);
                }
            }
            s += 1;
        }
        let p = plan::ExecutionPlan { nodes: out_nodes, stages: out_stages, env: plan_env };
        proof {
            assert(sts.take(ns as int) =~= sts);
            crate::stratify::lemma_stages_cover_closure(w, tset, sts);
            crate::assoc::lemma_assoc_map_dom(p.nodes@);
            assert forall|nm: Seq<char>| #[trigger]
                closure(w, tset).contains(nm) implies p.nodes_map().dom().contains(nm)
                && plan_node_ok(w.nodes_map()[nm], p.nodes_map()[nm], build_ctx(args@), proc_env@) by {
                assert(sets_union(sts).contains(nm));
                assert(assoc_has_key(p.nodes@, nm));
                let i = choose|i: int| 0 <= i < p.nodes@.len() && (#[trigger] p.nodes@[i]).0@ == nm;
                crate::assoc::lemma_assoc_map_last_occurrence(p.nodes@, i);
                assert(p.nodes_map()[nm] == p.nodes@[i].1);
            }
            assert forall|nm: Seq<char>| #[trigger]
                p.nodes_map().dom().contains(nm) implies closure(w, tset).contains(nm) by {
                assert(assoc_has_key(p.nodes@, nm));
                let i = choose|i: int| 0 <= i < p.nodes@.len() && (#[trigger] p.nodes@[i]).0@ == nm;
                assert(sets_union(sts).contains(nm));
            }
            // the plan is well-formed: unique names, well-formed nodes, and
            // stages that refer only to resolved nodes
            assert(p.wf()) by {
                assert forall|st: int, i: int|
                    0 <= st < p.stages@.len() && 0 <= i < (#[trigger] p.stages@[st]).nodes@.len()
                        implies p.nodes_map().dom().contains(
                    (#[trigger] p.stages@[st].nodes@[i])@) by {
                    let k = (p.stages@[st].nodes@[i])@;
                    assert(p.stages@[st].nodes@ == stages@[st]@);
                    assert(names_of(stages@[st]@)[i] == k);
                    assert(sts[st].contains(k));
                    crate::stratify::lemma_sets_union_member(sts, st, k);
                    assert(assoc_has_key(p.nodes@, k));
                }
            }
        }
        Ok(p)
    }
}

} // verus!
