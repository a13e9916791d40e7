use vstd::prelude::*;

use crate::assoc::names_of;
use crate::error::Error;
use crate::pattern::{regex_match, regex_valid, Pattern};
use crate::plan::ExecutionPlan;
use crate::strutil::push_char;
use crate::workflow::Workflow;

verus! {

/// Whether experimental commands are available.
pub enum Privilege {
    Normal,
    Experimental,
}

/// The serialization format chosen on the command line.
#[derive(Debug, Clone, Copy, PartialEq, Eq, Structural)]
pub enum Format {
    YAML,
    JSON { pretty: bool },
    TOML,
    RON { pretty: bool },
}

/// The format a command-line token names, if any.
pub open spec fn format_of(s: Seq<char>) -> Option<Format> {
    if s == "yaml"@ {
        Some(Format::YAML)
    } else if s == "json"@ {
        Some(Format::JSON { pretty: false })
    } else if s == "json+p"@ {
        Some(Format::JSON { pretty: true })
    } else if s == "toml"@ {
        Some(Format::TOML)
    } else if s == "ron"@ {
        Some(Format::RON { pretty: false })
    } else if s == "ron+p"@ {
        Some(Format::RON { pretty: true })
    } else {
        None
    }
}

impl Format {
    /// Parses the format name given on the command line.
    pub fn from_arg(arg: &str) -> (r: Result<Format, Error>)
        ensures
            r matches Ok(f) ==> format_of(arg@) == Some(f),
            r is Err <==> format_of(arg@) is None,
            r matches Err(e) ==> e matches Error::Argument(m) && m@ == "output"@,
    {
        if crate::strutil::str_eq(arg, "yaml") {
            Ok(Format::YAML)
        } else if crate::strutil::str_eq(arg, "json") {
            Ok(Format::JSON { pretty: false })
        } else if crate::strutil::str_eq(arg, "json+p") {
            Ok(Format::JSON { pretty: true })
        } else if crate::strutil::str_eq(arg, "toml") {
            Ok(Format::TOML)
        } else if crate::strutil::str_eq(arg, "ron") {
            Ok(Format::RON { pretty: false })
        } else if crate::strutil::str_eq(arg, "ron+p") {
            Ok(Format::RON { pretty: true })
        } else {
            Err(Error::Argument("output".to_owned()))
        }
    }
}

/// The manual's output format.
pub enum ManualFormat {
    Manpages,
    Markdown,
}

/// A shell for which completion scripts can be rendered.
pub enum CompletionShell {
    Bash,
    Zsh,
    Fish,
    Elvish,
    Powershell,
}

/// The template a new workflow file starts from.
pub enum InitTemplate {
    Min,
    Max,
    Python,
}

/// The smallest valid workflow.
pub open spec fn min_template() -> Seq<char> {
    "version: \"0.5\"\nnodes:\n  build:\n    tasks:\n      - script: |\n          echo \"building\"\n"@
}

/// A workflow showing prerequisites, a matrix and environment blocks.
pub open spec fn max_template() -> Seq<char> {
    "version: \"0.5\"\nenv:\n  vars:\n    LOG: \"info\"\nnodes:\n  prepare:\n    tasks:\n      - script: echo prepare\n  build:\n    pre: [\"prepare\"]\n    matrix:\n      dense:\n        dimensions:\n          - - env:\n                MODE: \"debug\"\n            - env:\n                MODE: \"release\"\n    tasks:\n      - script: echo \"mode $MODE\"\n"@
}

/// A workflow for a python project.
pub open spec fn python_template() -> Seq<char> {
    "version: \"0.5\"\nnodes:\n  test:\n    tasks:\n      - script: |\n          python3 -m pytest\n"@
}

impl InitTemplate {
    /// The workflow text this template stands for.
    pub fn render(&self) -> (r: String)
        ensures
            match self {
                InitTemplate::Min => r@ == min_template(),
                InitTemplate::Max => r@ == max_template(),
                InitTemplate::Python => r@ == python_template(),
            },
    {
        match self {
            InitTemplate::Min => {
                "version: \"0.5\"\nnodes:\n  build:\n    tasks:\n      - script: |\n          echo \"building\"\n".to_owned()
            },
            InitTemplate::Max => {
                "version: \"0.5\"\nenv:\n  vars:\n    LOG: \"info\"\nnodes:\n  prepare:\n    tasks:\n      - script: echo prepare\n  build:\n    pre: [\"prepare\"]\n    matrix:\n      dense:\n        dimensions:\n          - - env:\n                MODE: \"debug\"\n            - env:\n                MODE: \"release\"\n    tasks:\n      - script: echo \"mode $MODE\"\n".to_owned()
            },
            InitTemplate::Python => {
                "version: \"0.5\"\nnodes:\n  test:\n    tasks:\n      - script: |\n          python3 -m pytest\n".to_owned()
            },
        }
    }
}

/// Where a rendered template goes.
pub enum InitOutput {
    Stdout,
    File(String),
}

/// The node selection: explicit names, or a regex over all node names.
pub enum Nodes {
    Arr(Vec<String>),
    Regex(String),
}

/// The node names of the workflow, in declaration order.
pub open spec fn node_names(w: &Workflow) -> Seq<Seq<char>> {
    w.nodes@.map_values(|e: (String, crate::workflow::Node)| e.0@)
}

/// The first `n` node names that the pattern matches, in order.
pub open spec fn matching_prefix(w: &Workflow, p: Seq<char>, n: int) -> Seq<Seq<char>> {
    node_names(w).take(n).filter(|nm: Seq<char>| regex_match(p, nm))
}

/// All node names that the pattern matches, in order.
pub open spec fn matching_names(w: &Workflow, p: Seq<char>) -> Seq<Seq<char>> {
    matching_prefix(w, p, node_names(w).len() as int)
}

proof fn lemma_matching_prefix_step(w: &Workflow, p: Seq<char>, i: int)
    requires
        0 <= i < node_names(w).len(),
    ensures
        regex_match(p, node_names(w)[i]) ==> matching_prefix(w, p, i + 1) == matching_prefix(
            w,
            p,
            i,
        ).push(node_names(w)[i]),
        !regex_match(p, node_names(w)[i]) ==> matching_prefix(w, p, i + 1) == matching_prefix(
            w,
            p,
            i,
        ),
{
    reveal(Seq::filter);
    let all = node_names(w);
    assert(all.take(i + 1).drop_last() =~= all.take(i));
    assert(all.take(i + 1).last() == all[i]);
    if regex_match(p, all[i]) {
        assert(matching_prefix(w, p, i + 1) =~= matching_prefix(w, p, i).push(all[i]));
    } else {
        assert(matching_prefix(w, p, i + 1) =~= matching_prefix(w, p, i));
    }
}

impl Nodes {
    /// The selected node names: the explicit list as given, or every
    /// node name of the workflow that the regex matches.
    pub fn compile(&self, wf: &Workflow) -> (r: Result<Vec<String>, Error>)
        ensures
            self matches Nodes::Arr(v) ==> r matches Ok(sel) && sel@ == v@,
            self matches Nodes::Regex(p) ==> (r matches Ok(sel) ==> names_of(sel@)
                == matching_names(wf, p@)),
            r matches Err(e) ==> (e matches Error::RegexError(_)) && self is Regex,
            self matches Nodes::Regex(p) && !regex_valid(p@) ==> r is Err,
    {
        match self {
            Nodes::Arr(v) => {
                return Ok(crate::strutil::clone_strings(v));
            },
            Nodes::Regex(p) => {
                let pat = match Pattern::new(p.as_str()) {
                    Ok(pt) => pt,
                    Err(e) => {
                        return Err(Error::RegexError(e));
                    },
                };
                let mut sel: Vec<String> = Vec::new();
                let n = wf.nodes.len();
                let mut i: usize = 0;
                proof {
                    reveal(Seq::filter);
                    assert(node_names(wf).take(0) =~= Seq::<Seq<char>>::empty());
                    assert(names_of(sel@) =~= matching_prefix(wf, p@, 0));
                }
                while i < n
                    invariant
                        self matches Nodes::Regex(rx) && rx@ == p@,
                        n == wf.nodes@.len(),
                        i <= n,
                        pat@ == p@,
                        names_of(sel@) == matching_prefix(wf, p@, i as int),
                    decreases n - i,
                {
                    let name = &wf.nodes[i].0;
                    proof {
                        assert(node_names(wf)[i as int] == name@);
                    }
                    let m = match pat.is_match(name.as_str()) {
                        Ok(b) => b,
                        Err(e) => {
                            return Err(Error::RegexError(e));
                        },
                    };
                    proof {
                        lemma_matching_prefix_step(wf, p@, i as int);
                    }
                    if m {
                        let ghost sel0 = sel@;
                        sel.push(name.clone());
                        proof {
                            assert(names_of(sel@) =~= names_of(sel0).push(name@));
                        }
                    }
                    i += 1;
                }
                proof {
                    assert(node_names(wf).take(n as int) =~= node_names(wf));
                    assert(node_names(wf).len() == n as int);
                    assert(names_of(sel@) == matching_prefix(wf, p@, n as int));
                    assert(matching_names(wf, p@) == matching_prefix(
                        wf,
                        p@,
                        node_names(wf).len() as int,
                    ));
                    assert(names_of(sel@) == matching_names(wf, p@));
                    assert(self matches Nodes::Regex(rx) && rx@ == p@);
                }
                return Ok(sel);
            },
        }
    }
}

/// One parsed command line.
pub enum Command {
    Manual { path: String, format: ManualFormat },
    Autocomplete { path: String, shell: CompletionShell },
    WorkflowInit { template: InitTemplate, output: InitOutput },
    WorkflowSchema,
    Execute { plan: ExecutionPlan, workers: usize, no_stdout: bool, no_stderr: bool },
    Plan { workflow: String, nodes: Nodes, args: Vec<(String, String)>, format: Format },
    List { workflow: String, format: Format },
    Describe { workflow: String, nodes: Nodes, format: Format },
    Watch { workflow: String, watch: String, args: Vec<(String, String)>, workers: usize, root: String },
}

/// The validated command line: the privilege level and the command.
pub struct CallArgs {
    pub privileges: Privilege,
    pub command: Command,
}

impl CallArgs {
    /// Gates experimental commands: without the experimental privilege,
    /// the watch command is rejected.
    pub fn validate(&self) -> (r: Result<(), Error>)
        ensures
            r is Ok <==> (self.privileges is Experimental || !(self.command is Watch)),
            r matches Err(e) ==> e matches Error::ExperimentalCommand(m) && m@ == "watch"@,
    {
        match self.privileges {
            Privilege::Experimental => Ok(()),
            Privilege::Normal => match self.command {
                Command::Watch { .. } => Err(Error::ExperimentalCommand("watch".to_owned())),
                _ => Ok(()),
            },
        }
    }
}

/// The position of the first equals sign, or the length when none occurs.
pub open spec fn first_eq(s: Seq<char>) -> int
    decreases s.len(),
{
    if s.len() == 0 {
        0
    } else if s[0] == '=' {
        0
    } else {
        1 + first_eq(s.drop_first())
    }
}

proof fn lemma_first_eq_bounds(s: Seq<char>)
    ensures
        0 <= first_eq(s) <= s.len(),
    decreases s.len(),
{
    if s.len() > 0 && s[0] != '=' {
        lemma_first_eq_bounds(s.drop_first());
    }
}

proof fn lemma_first_eq_at(s: Seq<char>, k: int)
    requires
        0 <= k <= s.len(),
        forall|j: int| 0 <= j < k ==> s[j] != '=',
        k < s.len() ==> s[k] == '=',
    ensures
        k < s.len() ==> first_eq(s) == k,
        k == s.len() ==> first_eq(s) == s.len(),
    decreases k,
{
    if k == 0 {
        if s.len() > 0 && s[0] != '=' {
            lemma_first_eq_bounds(s.drop_first());
        }
    } else {
        assert(s[0] != '=');
        assert forall|j: int| 0 <= j < k - 1 implies s.drop_first()[j] != '=' by {
            assert(s.drop_first()[j] == s[j + 1]);
        }
        if k < s.len() {
            assert(s.drop_first()[k - 1] == s[k]);
        }
        lemma_first_eq_at(s.drop_first(), k - 1);
    }
}

/// Splits one `KEY=VALUE` argument at the first equals sign. An argument
/// without an equals sign is invalid.
pub fn parse_arg(s: &str) -> (r: Result<(String, String), Error>)
    ensures
        r matches Ok(kv) ==> first_eq(s@) < s@.len() && kv.0@ == s@.take(first_eq(s@)) && kv.1@
            == s@.skip(first_eq(s@) + 1),
        r is Err <==> first_eq(s@) == s@.len(),
        r matches Err(e) ==> e matches Error::Argument(_),
{
    let n = s.unicode_len();
    let mut key = String::new();
    let mut i: usize = 0;
    while i < n
        invariant
            n == s@.len(),
            i <= n,
            key@ == s@.take(i as int),
            forall|j: int| 0 <= j < i ==> s@[j] != '=',
        decreases n - i,
    {
        let c = s.get_char(i);
        if c == '=' {
            proof {
                lemma_first_eq_at(s@, i as int);
            }
            let mut value = String::new();
            let mut j: usize = i + 1;
            while j < n
                invariant
                    n == s@.len(),
                    i < n,
                    i + 1 <= j <= n,
                    value@ == s@.subrange(i as int + 1, j as int),
                decreases n - j,
            {
                push_char(&mut value, s.get_char(j));
                proof {
                    assert(value@ =~= s@.subrange(i as int + 1, j as int + 1));
                }
                j += 1;
            }
            proof {
                assert(value@ =~= s@.skip(i as int + 1));
            }
            return Ok((key, value));
        }
        push_char(&mut key, c);
        proof {
            assert(key@ =~= s@.take(i as int + 1));
        }
        i += 1;
    }
    proof {
        lemma_first_eq_at(s@, n as int);
    }
    Err(Error::Argument("argument must be of the form KEY=VALUE".to_owned()))
}

} // verus!
