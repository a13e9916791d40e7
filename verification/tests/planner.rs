use neomake::args::Nodes;
use neomake::compiler::Compiler;
use neomake::env::EnvMap;
use neomake::error::Error;
use neomake::workflow::{Env, Matrix, MatrixCell, Node, Shell, Task, Workflow};

fn task(script: &str) -> Task {
    Task { script: script.to_owned(), env: None, shell: None, workdir: None }
}

fn node(pre: Vec<&str>, scripts: Vec<&str>) -> Node {
    Node {
        description: None,
        pre: if pre.is_empty() {
            None
        } else {
            Some(pre.into_iter().map(|s| s.to_owned()).collect())
        },
        matrix: None,
        tasks: scripts.into_iter().map(task).collect(),
        env: None,
        shell: None,
        workdir: None,
    }
}

fn workflow(nodes: Vec<(&str, Node)>) -> Workflow {
    Workflow {
        version: "0.5".to_owned(),
        env: None,
        nodes: nodes.into_iter().map(|(k, v)| (k.to_owned(), v)).collect(),
        watch: None,
    }
}

fn names(v: Vec<&str>) -> Vec<String> {
    v.into_iter().map(|s| s.to_owned()).collect()
}

fn stage_as_set(stage: &Vec<String>) -> Vec<String> {
    let mut s: Vec<String> = stage.clone();
    s.sort();
    s
}

#[test]
fn simple_chain_stages() {
    let w = workflow(vec![
        ("a", node(vec!["b"], vec!["echo a"])),
        ("b", node(vec!["c"], vec!["echo b"])),
        ("c", node(vec![], vec!["echo hello"])),
    ]);
    assert!(w.wf_check());
    let c = Compiler::new(w);
    let stages = c.determine_order(&names(vec!["a"])).unwrap();
    assert_eq!(stages.len(), 3);
    assert_eq!(stages[0], names(vec!["c"]));
    assert_eq!(stages[1], names(vec!["b"]));
    assert_eq!(stages[2], names(vec!["a"]));
}

#[test]
fn fan_in_stages() {
    let w = workflow(vec![
        ("root", node(vec!["l", "r"], vec!["echo root"])),
        ("l", node(vec![], vec!["echo l"])),
        ("r", node(vec![], vec!["echo r"])),
    ]);
    assert!(w.wf_check());
    let c = Compiler::new(w);
    let stages = c.determine_order(&names(vec!["root"])).unwrap();
    assert_eq!(stages.len(), 2);
    assert_eq!(stage_as_set(&stages[0]), names(vec!["l", "r"]));
    assert_eq!(stages[1], names(vec!["root"]));
}

#[test]
fn closure_covers_targets_and_prerequisites() {
    let w = workflow(vec![
        ("a", node(vec!["b"], vec!["echo a"])),
        ("b", node(vec![], vec!["echo b"])),
        ("unrelated", node(vec![], vec!["echo u"])),
    ]);
    let c = Compiler::new(w);
    let stages = c.determine_order(&names(vec!["a"])).unwrap();
    let mut all: Vec<String> = stages.into_iter().flatten().collect();
    all.sort();
    assert_eq!(all, names(vec!["a", "b"]));
}

#[test]
fn cycle_fails_with_node_recursion() {
    let w = workflow(vec![
        ("a", node(vec!["b"], vec!["echo a"])),
        ("b", node(vec!["a"], vec!["echo b"])),
    ]);
    let c = Compiler::new(w);
    let err = c.determine_order(&names(vec!["a"])).unwrap_err();
    assert_eq!(err, Error::NodeRecursion);
}

#[test]
fn missing_reference_fails_with_not_found() {
    let w = workflow(vec![("a", node(vec![], vec!["echo a"]))]);
    let c = Compiler::new(w);
    let err = c.determine_order(&names(vec!["x"])).unwrap_err();
    match err {
        Error::NotFound(n) => assert_eq!(n, "x"),
        other => panic!("expected NotFound, got {:?}", other),
    }
}

#[test]
fn plan_missing_target_fails_with_not_found() {
    let w = workflow(vec![("a", node(vec![], vec!["echo a"]))]);
    let c = Compiler::new(w);
    match c.plan(&names(vec!["x"]), &vec![], &EnvMap::new()).unwrap_err() {
        Error::NotFound(n) => assert_eq!(n, "x"),
        other => panic!("expected NotFound, got {:?}", other),
    }
}

#[test]
fn self_cycle_fails() {
    let w = workflow(vec![("a", node(vec!["a"], vec!["echo a"]))]);
    let c = Compiler::new(w);
    assert_eq!(c.determine_order(&names(vec!["a"])).unwrap_err(), Error::NodeRecursion);
}

#[test]
fn determinism_of_stages() {
    let w = workflow(vec![
        ("a", node(vec!["b", "c"], vec!["echo a"])),
        ("b", node(vec!["d"], vec!["echo b"])),
        ("c", node(vec!["d"], vec!["echo c"])),
        ("d", node(vec![], vec!["echo d"])),
    ]);
    let c = Compiler::new(w);
    let s1 = c.determine_order(&names(vec!["a"])).unwrap();
    let s2 = c.determine_order(&names(vec!["a"])).unwrap();
    assert_eq!(s1.len(), s2.len());
    for (x, y) in s1.iter().zip(s2.iter()) {
        assert_eq!(stage_as_set(x), stage_as_set(y));
    }
}

#[test]
fn template_arg_renders_into_cmd() {
    let w = workflow(vec![("a", node(vec![], vec!["echo {{ foo.bar }}"]))]);
    let c = Compiler::new(w);
    let args = vec![("foo.bar".to_owned(), "baz".to_owned())];
    let plan = c.plan(&names(vec!["a"]), &args, &EnvMap::new()).unwrap();
    let nd = plan.get_node("a").unwrap();
    assert_eq!(nd.tasks.len(), 1);
    assert_eq!(nd.tasks[0].cmd, "echo baz");
}

#[test]
fn missing_template_arg_fails_with_handlebars() {
    let w = workflow(vec![("a", node(vec![], vec!["echo {{ foo.bar }}"]))]);
    let c = Compiler::new(w);
    let err = c.plan(&names(vec!["a"]), &vec![], &EnvMap::new()).unwrap_err();
    match err {
        Error::Handlebars(_) => {},
        other => panic!("expected Handlebars, got {:?}", other),
    }
}

#[test]
fn plan_without_matrix_has_one_empty_invocation() {
    let w = workflow(vec![("a", node(vec![], vec!["echo a"]))]);
    let c = Compiler::new(w);
    let plan = c.plan(&names(vec!["a"]), &vec![], &EnvMap::new()).unwrap();
    let nd = plan.get_node("a").unwrap();
    assert_eq!(nd.invocations.len(), 1);
    assert_eq!(nd.invocations[0].coords, "");
    assert_eq!(nd.invocations[0].env.len(), 0);
}

#[test]
fn plan_carries_shell_and_workdir() {
    let mut n = node(vec![], vec!["echo a"]);
    n.shell = Some(Shell { program: "bash".to_owned(), args: vec!["-c".to_owned()] });
    n.workdir = Some("/tmp".to_owned());
    let w = workflow(vec![("a", n)]);
    let c = Compiler::new(w);
    let plan = c.plan(&names(vec!["a"]), &vec![], &EnvMap::new()).unwrap();
    let nd = plan.get_node("a").unwrap();
    assert_eq!(nd.shell.as_ref().unwrap().program, "bash");
    assert_eq!(nd.workdir.as_ref().unwrap(), "/tmp");
}

#[test]
fn plan_env_from_vars() {
    let mut vars = EnvMap::new();
    vars.set("KEY".to_owned(), "value".to_owned());
    let mut w = workflow(vec![("a", node(vec![], vec!["echo a"]))]);
    w.env = Some(Env { capture: None, vars: Some(vars) });
    assert!(w.wf_check());
    let c = Compiler::new(w);
    let plan = c.plan(&names(vec!["a"]), &vec![], &EnvMap::new()).unwrap();
    assert_eq!(plan.env.get("KEY").unwrap(), "value");
}

#[test]
fn plan_env_capture_and_override() {
    let mut proc_env = EnvMap::new();
    proc_env.set("FOO_A".to_owned(), "1".to_owned());
    proc_env.set("FOO_B".to_owned(), "2".to_owned());
    proc_env.set("BAR".to_owned(), "3".to_owned());
    let mut vars = EnvMap::new();
    vars.set("FOO_B".to_owned(), "override".to_owned());
    let mut w = workflow(vec![("a", node(vec![], vec!["echo a"]))]);
    w.env = Some(Env { capture: Some("^FOO_".to_owned()), vars: Some(vars) });
    let c = Compiler::new(w);
    let plan = c.plan(&names(vec!["a"]), &vec![], &proc_env).unwrap();
    assert_eq!(plan.env.get("FOO_A").unwrap(), "1");
    assert_eq!(plan.env.get("FOO_B").unwrap(), "override");
    assert!(plan.env.get("BAR").is_none());
}

#[test]
fn invalid_capture_regex_fails() {
    let mut w = workflow(vec![("a", node(vec![], vec!["echo a"]))]);
    w.env = Some(Env { capture: Some("(".to_owned()), vars: None });
    let c = Compiler::new(w);
    match c.plan(&names(vec!["a"]), &vec![], &EnvMap::new()).unwrap_err() {
        Error::RegexError(_) => {},
        other => panic!("expected RegexError, got {:?}", other),
    }
}

fn cell(kvs: Vec<(&str, &str)>) -> MatrixCell {
    if kvs.is_empty() {
        MatrixCell { env: None }
    } else {
        let mut m = EnvMap::new();
        for (k, v) in kvs {
            m.set(k.to_owned(), v.to_owned());
        }
        MatrixCell { env: Some(m) }
    }
}

fn coords_of(w: Workflow, target: &str) -> Vec<String> {
    let c = Compiler::new(w);
    let plan = c.plan(&names(vec![target]), &vec![], &EnvMap::new()).unwrap();
    let nd = plan.get_node(target).unwrap();
    let mut cs: Vec<String> = nd.invocations.iter().map(|i| i.coords.clone()).collect();
    cs.sort();
    cs
}

#[test]
fn matrix_dense_drop() {
    let mut n = node(vec![], vec!["echo a"]);
    n.matrix = Some(Matrix::Dense {
        drop: Some("^0,.*".to_owned()),
        dimensions: vec![
            vec![cell(vec![("D0", "A")]), cell(vec![("D0", "B")])],
            vec![cell(vec![("D1", "X")]), cell(vec![("D1", "Y")])],
        ],
    });
    let w = workflow(vec![("a", n)]);
    assert_eq!(coords_of(w, "a"), names(vec!["1,0", "1,1"]));
}

#[test]
fn matrix_sparse_keep() {
    let mut n = node(vec![], vec!["echo a"]);
    n.matrix = Some(Matrix::Sparse {
        keep: Some("^(0|2)$".to_owned()),
        dimensions: vec![vec![
            cell(vec![("V", "A")]),
            cell(vec![("V", "B")]),
            cell(vec![("V", "C")]),
        ]],
    });
    let w = workflow(vec![("a", n)]);
    assert_eq!(coords_of(w, "a"), names(vec!["0", "2"]));
}

#[test]
fn matrix_dense_without_drop_keeps_full_product() {
    let mut n = node(vec![], vec!["echo a"]);
    n.matrix = Some(Matrix::Dense {
        drop: None,
        dimensions: vec![
            vec![cell(vec![]), cell(vec![])],
            vec![cell(vec![]), cell(vec![]), cell(vec![])],
        ],
    });
    let w = workflow(vec![("a", n)]);
    let cs = coords_of(w, "a");
    assert_eq!(cs.len(), 6);
    assert!(cs.contains(&"0,0".to_owned()));
    assert!(cs.contains(&"1,2".to_owned()));
}

#[test]
fn matrix_empty_dimensions_one_empty_invocation() {
    let mut n = node(vec![], vec!["echo a"]);
    n.matrix = Some(Matrix::Dense { drop: None, dimensions: vec![] });
    let w = workflow(vec![("a", n)]);
    let cs = coords_of(w, "a");
    assert_eq!(cs, names(vec![""]));
}

#[test]
fn matrix_sparse_without_keep_yields_no_invocations() {
    let mut n = node(vec![], vec!["echo a"]);
    n.matrix = Some(Matrix::Sparse {
        keep: None,
        dimensions: vec![vec![cell(vec![]), cell(vec![])]],
    });
    let w = workflow(vec![("a", n)]);
    let c = Compiler::new(w);
    let plan = c.plan(&names(vec!["a"]), &vec![], &EnvMap::new()).unwrap();
    let nd = plan.get_node("a").unwrap();
    assert_eq!(nd.invocations.len(), 0);
    assert_eq!(plan.stages.len(), 1);
}

#[test]
fn matrix_cell_env_later_dimension_overrides() {
    let mut n = node(vec![], vec!["echo a"]);
    n.matrix = Some(Matrix::Dense {
        drop: None,
        dimensions: vec![
            vec![cell(vec![("K", "first"), ("ONLY0", "x")])],
            vec![cell(vec![("K", "second")])],
        ],
    });
    let w = workflow(vec![("a", n)]);
    let c = Compiler::new(w);
    let plan = c.plan(&names(vec!["a"]), &vec![], &EnvMap::new()).unwrap();
    let nd = plan.get_node("a").unwrap();
    assert_eq!(nd.invocations.len(), 1);
    assert_eq!(nd.invocations[0].env.get("K").unwrap(), "second");
    assert_eq!(nd.invocations[0].env.get("ONLY0").unwrap(), "x");
}

#[test]
fn invalid_matrix_filter_fails() {
    let mut n = node(vec![], vec!["echo a"]);
    n.matrix = Some(Matrix::Dense {
        drop: Some("(".to_owned()),
        dimensions: vec![vec![cell(vec![])]],
    });
    let w = workflow(vec![("a", n)]);
    let c = Compiler::new(w);
    match c.plan(&names(vec!["a"]), &vec![], &EnvMap::new()).unwrap_err() {
        Error::RegexError(_) => {},
        other => panic!("expected RegexError, got {:?}", other),
    }
}

#[test]
fn node_selection_by_regex() {
    let w = workflow(vec![
        ("build-x", node(vec![], vec!["echo x"])),
        ("build-y", node(vec![], vec!["echo y"])),
        ("test", node(vec![], vec!["echo t"])),
    ]);
    let sel = Nodes::Regex("^build-".to_owned()).compile(&w).unwrap();
    assert_eq!(sel, names(vec!["build-x", "build-y"]));
    let all = Nodes::Arr(names(vec!["test"])).compile(&w).unwrap();
    assert_eq!(all, names(vec!["test"]));
}

#[test]
fn plan_is_well_formed_for_execution() {
    let w = workflow(vec![
        ("a", node(vec!["b"], vec!["echo a"])),
        ("b", node(vec![], vec!["echo b"])),
    ]);
    let c = Compiler::new(w);
    let plan = c.plan(&names(vec!["a"]), &vec![], &EnvMap::new()).unwrap();
    assert!(plan.wf_check());
}

#[test]
fn list_names_every_node() {
    let w = workflow(vec![
        ("b", node(vec![], vec!["echo b"])),
        ("a", node(vec!["b"], vec!["echo a"])),
    ]);
    let c = Compiler::new(w);
    let infos = c.list();
    assert_eq!(infos.len(), 2);
    assert_eq!(infos[0].name, "b");
    assert_eq!(infos[1].name, "a");
    assert_eq!(infos[1].pre.as_ref().unwrap(), &names(vec!["b"]));
}

#[test]
fn matrix_coords_with_two_digit_index() {
    let mut n = node(vec![], vec!["echo a"]);
    n.matrix = Some(Matrix::Sparse {
        keep: Some("^10$".to_owned()),
        dimensions: vec![(0..12).map(|_| cell(vec![])).collect()],
    });
    let w = workflow(vec![("a", n)]);
    assert_eq!(coords_of(w, "a"), names(vec!["10"]));
}
