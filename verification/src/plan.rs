use vstd::prelude::*;

use crate::assoc::{assoc_map, assoc_unique};
use crate::env::EnvMap;
use crate::workflow::Shell;

verus! {

/// One surviving point of a node's matrix product.
#[derive(Debug)]
pub struct Invocation {
    /// Comma-joined dimension indices, like "0,2,1".
    pub coords: String,
    /// The union of the selected cells' variables.
    pub env: EnvMap,
}

impl Invocation {
    pub open spec fn wf(&self) -> bool {
        self.env.wf()
    }
}

/// One rendered task of a plan node.
#[derive(Debug)]
pub struct Task {
    /// The fully rendered script.
    pub cmd: String,
    /// Task-level variables.
    pub env: EnvMap,
    /// Custom program for the task.
    pub shell: Option<Shell>,
    /// Custom working directory for the task.
    pub workdir: Option<String>,
}

impl Task {
    pub open spec fn wf(&self) -> bool {
        self.env.wf()
    }
}

/// A resolved node of the plan.
#[derive(Debug)]
pub struct Node {
    /// The invocations to run; one per surviving matrix point.
    pub invocations: Vec<Invocation>,
    /// The rendered tasks, in execution order.
    pub tasks: Vec<Task>,
    /// Node-level variables.
    pub env: EnvMap,
    /// Custom program for this node.
    pub shell: Option<Shell>,
    /// Custom working directory for this node.
    pub workdir: Option<String>,
}

impl Node {
    pub open spec fn wf(&self) -> bool {
        &&& self.env.wf()
        &&& forall|i: int| 0 <= i < self.invocations@.len() ==> (#[trigger] self.invocations@[i]).wf()
        &&& forall|i: int| 0 <= i < self.tasks@.len() ==> (#[trigger] self.tasks@[i]).wf()
    }

    pub fn wf_check(&self) -> (r: bool)
        ensures
            r == self.wf(),
    {
        if !self.env.wf_check() {
            return false;
        }
        let ni = self.invocations.len();
        let mut i: usize = 0;
        while i < ni
            invariant
                ni == self.invocations@.len(),
                i <= ni,
                forall|j: int| 0 <= j < i ==> (#[trigger] self.invocations@[j]).wf(),
            decreases ni - i,
        {
            if !self.invocations[i].env.wf_check() {
                return false;
            }
            i += 1;
        }
        let nt = self.tasks.len();
        let mut t: usize = 0;
        while t < nt
            invariant
                nt == self.tasks@.len(),
                t <= nt,
                forall|j: int| 0 <= j < t ==> (#[trigger] self.tasks@[j]).wf(),
            decreases nt - t,
        {
            if !self.tasks[t].env.wf_check() {
                return false;
            }
            t += 1;
        }
        true
    }
}

/// One stage: nodes without mutual prerequisites, run concurrently.
#[derive(Debug)]
pub struct Stage {
    pub nodes: Vec<String>,
}

/// The serializable artifact that planning produces and execution consumes.
#[derive(Debug)]
pub struct ExecutionPlan {
    /// The resolved nodes, uniquely named.
    pub nodes: Vec<(String, Node)>,
    /// The stages, in dependency order.
    pub stages: Vec<Stage>,
    /// Plan-level variables, fully resolved.
    pub env: EnvMap,
}

impl ExecutionPlan {
    /// The resolved nodes as a mapping from name to node.
    pub open spec fn nodes_map(&self) -> Map<Seq<char>, Node> {
        assoc_map(self.nodes@)
    }

    /// Every name of every stage refers to a resolved node.
    pub open spec fn stages_resolved(&self) -> bool {
        forall|s: int, i: int|
            0 <= s < self.stages@.len() && 0 <= i < (#[trigger] self.stages@[s]).nodes@.len()
                ==> self.nodes_map().dom().contains((#[trigger] self.stages@[s].nodes@[i])@)
    }

    pub open spec fn wf(&self) -> bool {
        &&& self.env.wf()
        &&& assoc_unique(self.nodes@)
        &&& forall|i: int| 0 <= i < self.nodes@.len() ==> (#[trigger] self.nodes@[i]).1.wf()
        &&& self.stages_resolved()
    }

    /// Looks a resolved node up by name.
    pub fn get_node<'a>(&'a self, name: &str) -> (r: Option<&'a Node>)
        requires
            assoc_unique(self.nodes@),
        ensures
            match r {
                Some(nd) => self.nodes_map().dom().contains(name@) && *nd
                    == self.nodes_map()[name@],
                None => !self.nodes_map().dom().contains(name@),
            },
    {
        crate::assoc::assoc_get(&self.nodes, name)
    }

    /// Checks the executor's expectations of a plan that arrived from
    /// outside: unique node names, well-formed environments, and stages
    /// that refer only to resolved nodes.
    pub fn wf_check(&self) -> (r: bool)
        ensures
            r == self.wf(),
    {
        if !self.env.wf_check() {
            return false;
        }
        if !crate::assoc::assoc_unique_check(&self.nodes) {
            return false;
        }
        let nn = self.nodes.len();
        let mut i: usize = 0;
        while i < nn
            invariant
                nn == self.nodes@.len(),
                i <= nn,
                forall|j: int| 0 <= j < i ==> (#[trigger] self.nodes@[j]).1.wf(),
            decreases nn - i,
        {
            if !self.nodes[i].1.wf_check() {
                return false;
            }
            i += 1;
        }
        let ns = self.stages.len();
        let mut s: usize = 0;
        while s < ns
            invariant
                assoc_unique(self.nodes@),
                ns == self.stages@.len(),
                s <= ns,
                forall|a: int, b: int|
                    0 <= a < s && 0 <= b < (#[trigger] self.stages@[a]).nodes@.len()
                        ==> self.nodes_map().dom().contains((#[trigger] self.stages@[a].nodes@[b])@),
            decreases ns - s,
        {
            let stage = &self.stages[s];
            let nb = stage.nodes.len();
            let mut b: usize = 0;
            while b < nb
                invariant
                    assoc_unique(self.nodes@),
                    ns == self.stages@.len(),
                    s < ns,
                    stage == self.stages@[s as int],
                    nb == stage.nodes@.len(),
                    b <= nb,
                    forall|a: int, bb: int|
                        0 <= a < s && 0 <= bb < (#[trigger] self.stages@[a]).nodes@.len()
                            ==> self.nodes_map().dom().contains(
                            (#[trigger] self.stages@[a].nodes@[bb])@,
                        ),
                    forall|bb: int|
                        0 <= bb < b ==> self.nodes_map().dom().contains(
                            (#[trigger] self.stages@[s as int].nodes@[bb])@,
                        ),
                decreases nb - b,
            {
                match self.get_node(stage.nodes[b].as_str()) {
                    Some(_) => {},
                    None => {
                        return false;
                    },
                }
                b += 1;
            }
            s += 1;
        }
        true
    }
}

} // verus!
