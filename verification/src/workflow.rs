use vstd::prelude::*;

use crate::assoc::{assoc_map, assoc_unique};
use crate::env::EnvMap;
use crate::error::Error;
use crate::pattern::{regex_match, regex_valid, Pattern};
use crate::strutil::clone_strings;

verus! {

/// A task execution environment: the program and its leading arguments.
#[derive(Debug)]
pub struct Shell {
    /// The program, like "sh".
    pub program: String,
    /// Its leading arguments, like ["-c"].
    pub args: Vec<String>,
}

impl Shell {
    /// An equal, independent copy.
    pub fn duplicate(&self) -> (r: Shell)
        ensures
            r.program@ == self.program@,
            r.args@ == self.args@,
    {
        Shell { program: self.program.clone(), args: clone_strings(&self.args) }
    }
}

/// Environment variable definitions: an optional capture regex over the
/// process environment, and explicitly set variables.
pub struct Env {
    /// Regex over variable names; every matching process variable is copied.
    pub capture: Option<String>,
    /// Explicitly set variables; they override captured ones on collision.
    pub vars: Option<EnvMap>,
}

/// The mapping held by an optional environment value.
pub open spec fn opt_env_view(o: &Option<EnvMap>) -> Map<Seq<char>, Seq<char>> {
    match o {
        Some(m) => m@,
        None => Map::empty(),
    }
}

/// The variables of `proc` whose names match `pat`.
pub open spec fn captured_env(pat: Seq<char>, proc: Map<Seq<char>, Seq<char>>) -> Map<
    Seq<char>,
    Seq<char>,
> {
    proc.restrict(proc.dom().filter(|k: Seq<char>| regex_match(pat, k)))
}

/// What an environment block compiles to, given the process environment:
/// the captured variables, overridden by the explicit ones.
pub open spec fn env_block_spec(block: &Env, proc: Map<Seq<char>, Seq<char>>) -> Map<
    Seq<char>,
    Seq<char>,
> {
    match block.capture {
        Some(ref p) => captured_env(p@, proc).union_prefer_right(opt_env_view(&block.vars)),
        None => opt_env_view(&block.vars),
    }
}

impl Env {
    pub open spec fn wf(&self) -> bool {
        match self.vars {
            Some(ref m) => m.wf(),
            None => true,
        }
    }

    pub fn wf_check(&self) -> (r: bool)
        ensures
            r == self.wf(),
    {
        match &self.vars {
            Some(m) => m.wf_check(),
            None => true,
        }
    }

    /// Compiles the block against the given process environment: every
    /// process variable whose name matches `capture` is copied, then the
    /// explicit variables are laid over the result.
    pub fn compile(&self, proc_env: &EnvMap) -> (r: Result<EnvMap, Error>)
        requires
            self.wf(),
            proc_env.wf(),
        ensures
            r matches Ok(m) ==> m.wf() && m@ == env_block_spec(self, proc_env@),
            self.capture is None ==> r is Ok,
            r matches Err(e) ==> (e matches Error::RegexError(_)) && self.capture is Some,
            self.capture matches Some(p) && !regex_valid(p@) ==> r is Err,
    {
        match &self.capture {
            None => {
                match &self.vars {
                    Some(m) => Ok(m.duplicate()),
                    None => Ok(EnvMap::new()),
                }
            },
            Some(p) => {
                let pat = match Pattern::new(p.as_str()) {
                    Ok(pt) => pt,
                    Err(e) => {
                        return Err(Error::RegexError(e));
                    },
                };
                let ghost keys = proc_env@.dom().filter(|k: Seq<char>| regex_match(p@, k));
                let mut acc = EnvMap::new();
                let n = proc_env.entries.len();
                let mut i: usize = 0;
                proof {
                    assert(acc@ =~= crate::env::map_of(proc_env.entries@.take(0)).restrict(keys));
                }
                while i < n
                    invariant
                        proc_env.wf(),
                        self.capture == Some(*p),
                        pat@ == p@,
                        n == proc_env.entries@.len(),
                        i <= n,
                        acc.wf(),
                        keys == proc_env@.dom().filter(|k: Seq<char>| regex_match(p@, k)),
                        acc@ == crate::env::map_of(proc_env.entries@.take(i as int)).restrict(keys),
                    decreases n - i,
                {
                    let k = &proc_env.entries[i].0;
                    let matched = match pat.is_match(k.as_str()) {
                        Ok(b) => b,
                        Err(e) => {
                            return Err(Error::RegexError(e));
                        },
                    };
                    proof {
                        let pre = proc_env.entries@.take(i as int);
                        let post = proc_env.entries@.take(i as int + 1);
                        assert(post.drop_last() =~= pre);
                        assert(post.last() == proc_env.entries@[i as int]);
                        crate::env::lemma_map_of_dom(proc_env.entries@);
                        assert(crate::env::has_key(proc_env.entries@, k@));
                        assert(proc_env@.dom().contains(k@));
                        if matched {
                            assert(keys.contains(k@));
                            crate::env::lemma_map_of_last_occurrence(proc_env.entries@, i as int);
                            assert(proc_env@[k@] == proc_env.entries@[i as int].1@);
                            assert(crate::env::map_of(post).restrict(keys) =~= crate::env::map_of(
                                pre,
                            ).restrict(keys).insert(k@, proc_env.entries@[i as int].1@));
                        } else {
                            assert(!keys.contains(k@));
                            assert(crate::env::map_of(post).restrict(keys) =~= crate::env::map_of(
                                pre,
                            ).restrict(keys));
                        }
                    }
                    if matched {
                        let key = proc_env.entries[i].0.clone();
                        let val = proc_env.entries[i].1.clone();
                        acc.set(key, val);
                    }
                    i += 1;
                }
                proof {
                    assert(proc_env.entries@.take(n as int) =~= proc_env.entries@);
                    assert(acc@ == captured_env(p@, proc_env@));
                }
                match &self.vars {
                    Some(m) => {
                        acc.extend_with(m);
                    },
                    None => {
                        proof {
                            assert(acc@.union_prefer_right(Map::<Seq<char>, Seq<char>>::empty())
                                =~= acc@);
                        }
                    },
                }
                Ok(acc)
            },
        }
    }
}

/// One cell of a matrix dimension; selecting it contributes its variables.
pub struct MatrixCell {
    pub env: Option<EnvMap>,
}

impl MatrixCell {
    pub open spec fn wf(&self) -> bool {
        match self.env {
            Some(ref m) => m.wf(),
            None => true,
        }
    }

    pub fn wf_check(&self) -> (r: bool)
        ensures
            r == self.wf(),
    {
        match &self.env {
            Some(m) => m.wf_check(),
            None => true,
        }
    }
}

/// An n-dimensional configuration matrix. A node is run once for every
/// point of the cartesian product of the dimensions that survives the
/// filter: a dense matrix keeps everything not matching `drop`, a sparse
/// one keeps only what matches `keep`.
pub enum Matrix {
    Dense { drop: Option<String>, dimensions: Vec<Vec<MatrixCell>> },
    Sparse { dimensions: Vec<Vec<MatrixCell>>, keep: Option<String> },
}

impl Matrix {
    /// The ordered dimensions, each an ordered list of cells.
    pub open spec fn spec_dimensions(&self) -> Seq<Vec<MatrixCell>> {
        match self {
            Matrix::Dense { dimensions, .. } => dimensions@,
            Matrix::Sparse { dimensions, .. } => dimensions@,
        }
    }

    /// The filter regex, if any.
    pub open spec fn spec_filter(&self) -> Option<String> {
        match self {
            Matrix::Dense { drop, .. } => *drop,
            Matrix::Sparse { keep, .. } => *keep,
        }
    }

    /// Whether a point whose coordinate string matches is kept.
    pub open spec fn is_dense(&self) -> bool {
        self is Dense
    }

    pub open spec fn wf(&self) -> bool {
        forall|d: int, c: int|
            0 <= d < self.spec_dimensions().len() && 0 <= c < (
            #[trigger] self.spec_dimensions()[d])@.len() ==> (#[trigger] self.spec_dimensions()[d]@[c]).wf()
    }

    pub fn wf_check(&self) -> (r: bool)
        ensures
            r == self.wf(),
    {
        let dims = match self {
            Matrix::Dense { dimensions, .. } => dimensions,
            Matrix::Sparse { dimensions, .. } => dimensions,
        };
        let nd = dims.len();
        let mut d: usize = 0;
        while d < nd
            invariant
                nd == dims@.len(),
                dims@ == self.spec_dimensions(),
                d <= nd,
                forall|a: int, c: int|
                    0 <= a < d && 0 <= c < (#[trigger] self.spec_dimensions()[a])@.len() ==> (
                    #[trigger] self.spec_dimensions()[a]@[c]).wf(),
            decreases nd - d,
        {
            let row = &dims[d];
            let nc = row.len();
            let mut c: usize = 0;
            while c < nc
                invariant
                    nd == dims@.len(),
                    dims@ == self.spec_dimensions(),
                    d < nd,
                    row == dims@[d as int],
                    nc == row@.len(),
                    c <= nc,
                    forall|a: int, cc: int|
                        0 <= a < d && 0 <= cc < (#[trigger] self.spec_dimensions()[a])@.len() ==> (
                        #[trigger] self.spec_dimensions()[a]@[cc]).wf(),
                    forall|cc: int|
                        0 <= cc < c ==> (#[trigger] self.spec_dimensions()[d as int]@[cc]).wf(),
                decreases nc - c,
            {
                if !row[c].wf_check() {
                    return false;
                }
                c += 1;
            }
            d += 1;
        }
        true
    }
}

/// A single script to execute.
pub struct Task {
    /// The script content; may contain double-brace placeholders.
    pub script: String,
    /// Explicitly set variables of the task alone.
    pub env: Option<EnvMap>,
    /// Custom program to execute the script.
    pub shell: Option<Shell>,
    /// Custom working directory.
    pub workdir: Option<String>,
}

impl Task {
    pub open spec fn wf(&self) -> bool {
        match self.env {
            Some(ref m) => m.wf(),
            None => true,
        }
    }

    pub fn wf_check(&self) -> (r: bool)
        ensures
            r == self.wf(),
    {
        match &self.env {
            Some(m) => m.wf_check(),
            None => true,
        }
    }
}

/// A named unit of work: prerequisites, an optional matrix, and tasks.
pub struct Node {
    /// A description of this node.
    pub description: Option<String>,
    /// Names of nodes that must run before this one.
    pub pre: Option<Vec<String>>,
    /// An optional configuration matrix.
    pub matrix: Option<Matrix>,
    /// The tasks, in execution order.
    pub tasks: Vec<Task>,
    /// Environment variables for every task of this node.
    pub env: Option<Env>,
    /// Custom program to execute the scripts.
    pub shell: Option<Shell>,
    /// Custom working directory.
    pub workdir: Option<String>,
}

impl Node {
    /// The prerequisite names, empty when absent.
    pub open spec fn pre_names(&self) -> Seq<Seq<char>> {
        match self.pre {
            Some(ref v) => crate::assoc::names_of(v@),
            None => Seq::empty(),
        }
    }

    pub open spec fn wf(&self) -> bool {
        &&& forall|i: int| 0 <= i < self.tasks@.len() ==> (#[trigger] self.tasks@[i]).wf()
        &&& match self.env {
            Some(ref e) => e.wf(),
            None => true,
        }
        &&& match self.matrix {
            Some(ref m) => m.wf(),
            None => true,
        }
    }

    pub fn wf_check(&self) -> (r: bool)
        ensures
            r == self.wf(),
    {
        let nt = self.tasks.len();
        let mut i: usize = 0;
        while i < nt
            invariant
                nt == self.tasks@.len(),
                i <= nt,
                forall|j: int| 0 <= j < i ==> (#[trigger] self.tasks@[j]).wf(),
            decreases nt - i,
        {
            if !self.tasks[i].wf_check() {
                return false;
            }
            i += 1;
        }
        let env_ok = match &self.env {
            Some(e) => e.wf_check(),
            None => true,
        };
        if !env_ok {
            return false;
        }
        match &self.matrix {
            Some(m) => m.wf_check(),
            None => true,
        }
    }
}

/// A named pairing of a filesystem filter with a node to re-execute.
#[derive(Debug)]
pub struct WatchEntry {
    /// Regex applied to "<kind>|<path>" for each filesystem event.
    pub filter: String,
    /// Queue every matched event instead of dropping while busy.
    pub queue: bool,
    /// The node to execute on a matched event.
    pub node: String,
}

/// The entire workflow definition.
pub struct Workflow {
    /// The declared format version (major.minor).
    pub version: String,
    /// Workflow-level environment variables.
    pub env: Option<Env>,
    /// All nodes, uniquely named.
    pub nodes: Vec<(String, Node)>,
    /// Watch entries, uniquely named.
    pub watch: Option<Vec<(String, WatchEntry)>>,
}

impl Workflow {
    /// The nodes as a mapping from name to node.
    pub open spec fn nodes_map(&self) -> Map<Seq<char>, Node> {
        assoc_map(self.nodes@)
    }

    /// The watch entries as a mapping from name to entry.
    pub open spec fn watch_map(&self) -> Map<Seq<char>, WatchEntry> {
        match self.watch {
            Some(ref w) => assoc_map(w@),
            None => Map::empty(),
        }
    }

    pub open spec fn wf(&self) -> bool {
        &&& assoc_unique(self.nodes@)
        &&& forall|i: int| 0 <= i < self.nodes@.len() ==> (#[trigger] self.nodes@[i]).1.wf()
        &&& match self.env {
            Some(ref e) => e.wf(),
            None => true,
        }
        &&& match self.watch {
            Some(ref w) => assoc_unique(w@),
            None => true,
        }
    }

    pub fn wf_check(&self) -> (r: bool)
        ensures
            r == self.wf(),
    {
        if !crate::assoc::assoc_unique_check(&self.nodes) {
            return false;
        }
        let n = self.nodes.len();
        let mut i: usize = 0;
        while i < n
            invariant
                n == self.nodes@.len(),
                i <= n,
                assoc_unique(self.nodes@),
                forall|j: int| 0 <= j < i ==> (#[trigger] self.nodes@[j]).1.wf(),
            decreases n - i,
        {
            if !self.nodes[i].1.wf_check() {
                return false;
            }
            i += 1;
        }
        let env_ok = match &self.env {
            Some(e) => e.wf_check(),
            None => true,
        };
        if !env_ok {
            return false;
        }
        match &self.watch {
            Some(w) => crate::assoc::assoc_unique_check(w),
            None => true,
        }
    }

    /// Looks a node up by name.
    pub fn get_node<'a>(&'a self, name: &str) -> (r: Option<&'a Node>)
        requires
            self.wf(),
        ensures
            match r {
                Some(nd) => self.nodes_map().dom().contains(name@) && *nd == self.nodes_map()[name@],
                None => !self.nodes_map().dom().contains(name@),
            },
    {
        crate::assoc::assoc_get(&self.nodes, name)
    }
}

/// The workflow version this runtime supports.
pub open spec fn supported_version() -> Seq<char> {
    "0.5"@
}

/// The message given for an unsupported version.
pub open spec fn version_error_msg(v: Seq<char>) -> Seq<char> {
    "workflow version "@ + v + " is incompatible with this runtime"@
}

/// Accepts exactly the supported workflow version.
pub fn check_version(version: &str) -> (r: Result<(), Error>)
    ensures
        r is Ok <==> version@ == supported_version(),
        r matches Err(e) ==> e matches Error::VersionCompatibility(m) && m@ == version_error_msg(
            version@,
        ),
{
    if crate::strutil::str_eq(version, "0.5") {
        Ok(())
    } else {
        let mut m = "workflow version ".to_owned();
        m.append(version);
        m.append(" is incompatible with this runtime");
        Err(Error::VersionCompatibility(m))
    }
}

} // verus!
