use neomake::args::{CallArgs, Command, Format, InitTemplate, Nodes, Privilege};
use neomake::env::EnvMap;
use neomake::error::Error;
use neomake::exec::{aggregate_outcomes, child_outcome, effective_env, ExecutionEngine, OutputMode};
use neomake::output::Controller;
use neomake::pattern::Pattern;
use neomake::render::{build_args, to_json};
use neomake::strutil::{i32_to_string, u64_to_string};
use neomake::watch::{event_action, event_text, EventKind};
use neomake::plan::{Invocation, Node as PlanNode, Task as PlanTask};
use neomake::workflow::{check_version, Env, WatchEntry, Workflow};

#[test]
fn decimal_rendering() {
    assert_eq!(u64_to_string(0), "0");
    assert_eq!(u64_to_string(7), "7");
    assert_eq!(u64_to_string(1024), "1024");
    assert_eq!(i32_to_string(-42), "-42");
    assert_eq!(i32_to_string(0), "0");
}

#[test]
fn env_map_set_get_extend() {
    let mut a = EnvMap::new();
    a.set("X".to_owned(), "1".to_owned());
    a.set("Y".to_owned(), "2".to_owned());
    a.set("X".to_owned(), "3".to_owned());
    assert_eq!(a.get("X").unwrap(), "3");
    assert_eq!(a.len(), 2);
    let mut b = EnvMap::new();
    b.set("Y".to_owned(), "9".to_owned());
    b.set("Z".to_owned(), "z".to_owned());
    a.extend_with(&b);
    assert_eq!(a.get("Y").unwrap(), "9");
    assert_eq!(a.get("Z").unwrap(), "z");
    assert_eq!(a.get("X").unwrap(), "3");
    assert!(a.get("missing").is_none());
}

#[test]
fn effective_env_precedence() {
    let mut p = EnvMap::new();
    p.set("K".to_owned(), "plan".to_owned());
    p.set("P".to_owned(), "p".to_owned());
    let mut n = EnvMap::new();
    n.set("K".to_owned(), "node".to_owned());
    n.set("N".to_owned(), "n".to_owned());
    let mut i = EnvMap::new();
    i.set("K".to_owned(), "invocation".to_owned());
    let mut t = EnvMap::new();
    t.set("K".to_owned(), "task".to_owned());
    let e = effective_env(&p, &n, &i, &t);
    assert_eq!(e.get("K").unwrap(), "task");
    assert_eq!(e.get("P").unwrap(), "p");
    assert_eq!(e.get("N").unwrap(), "n");
    let e2 = effective_env(&p, &n, &i, &EnvMap::new());
    assert_eq!(e2.get("K").unwrap(), "invocation");
    let e3 = effective_env(&p, &n, &EnvMap::new(), &EnvMap::new());
    assert_eq!(e3.get("K").unwrap(), "node");
    let e4 = effective_env(&p, &EnvMap::new(), &EnvMap::new(), &EnvMap::new());
    assert_eq!(e4.get("K").unwrap(), "plan");
}

#[test]
fn child_outcome_codes() {
    assert!(child_outcome("exit 0", Some(0)).is_ok());
    match child_outcome("exit 1", Some(1)).unwrap_err() {
        Error::ChildProcess(m) => {
            assert_eq!(m, "command: exit 1 failed to execute with code 1");
        },
        other => panic!("expected ChildProcess, got {:?}", other),
    }
    match child_outcome("sleep 100", None).unwrap_err() {
        Error::ChildProcess(m) => {
            assert_eq!(m, "command: sleep 100 was terminated by a signal");
        },
        other => panic!("expected ChildProcess, got {:?}", other),
    }
}

#[test]
fn failure_aggregation_collects_every_error() {
    let e1 = child_outcome("exit 1", Some(1));
    let e2 = child_outcome("exit 2", Some(2));
    let outcomes = vec![Ok(()), e1, Ok(()), e2];
    match aggregate_outcomes(outcomes).unwrap_err() {
        Error::Many(errs) => {
            assert_eq!(errs.len(), 2);
            match &errs[0] {
                Error::ChildProcess(m) => {
                    assert_eq!(m, "command: exit 1 failed to execute with code 1")
                },
                other => panic!("unexpected {:?}", other),
            }
            match &errs[1] {
                Error::ChildProcess(m) => {
                    assert_eq!(m, "command: exit 2 failed to execute with code 2")
                },
                other => panic!("unexpected {:?}", other),
            }
        },
        other => panic!("expected Many, got {:?}", other),
    }
    assert!(aggregate_outcomes(vec![Ok(()), Ok(())]).is_ok());
}

#[test]
fn work_items_per_invocation() {
    let mut ienv = EnvMap::new();
    ienv.set("I".to_owned(), "0".to_owned());
    let nd = PlanNode {
        invocations: vec![
            Invocation { coords: "0".to_owned(), env: ienv },
            Invocation { coords: "1".to_owned(), env: EnvMap::new() },
        ],
        tasks: vec![
            PlanTask { cmd: "echo one".to_owned(), env: EnvMap::new(), shell: None, workdir: None },
            PlanTask { cmd: "echo two".to_owned(), env: EnvMap::new(), shell: None, workdir: None },
        ],
        env: EnvMap::new(),
        shell: None,
        workdir: None,
    };
    let engine = ExecutionEngine::new(OutputMode { stdout: true, stderr: true });
    let items = engine.node_work(&EnvMap::new(), &nd);
    assert_eq!(items.len(), 2);
    assert_eq!(items[0].tasks.len(), 2);
    assert_eq!(items[0].tasks[0].command, "echo one");
    assert_eq!(items[0].tasks[0].shell.program, "sh");
    assert_eq!(items[0].tasks[0].shell.args, vec!["-c".to_owned()]);
    assert_eq!(items[0].tasks[0].env.get("I").unwrap(), "0");
    assert!(items[1].tasks[1].env.get("I").is_none());
}

#[test]
fn version_gate() {
    assert!(check_version("0.5").is_ok());
    match check_version("0.4").unwrap_err() {
        Error::VersionCompatibility(m) => {
            assert_eq!(m, "workflow version 0.4 is incompatible with this runtime");
        },
        other => panic!("expected VersionCompatibility, got {:?}", other),
    }
}

#[test]
fn format_parsing() {
    assert_eq!(Format::from_arg("yaml").unwrap(), Format::YAML);
    assert_eq!(Format::from_arg("json").unwrap(), Format::JSON { pretty: false });
    assert_eq!(Format::from_arg("json+p").unwrap(), Format::JSON { pretty: true });
    assert_eq!(Format::from_arg("toml").unwrap(), Format::TOML);
    assert_eq!(Format::from_arg("ron").unwrap(), Format::RON { pretty: false });
    assert_eq!(Format::from_arg("ron+p").unwrap(), Format::RON { pretty: true });
    match Format::from_arg("xml").unwrap_err() {
        Error::Argument(m) => assert_eq!(m, "output"),
        other => panic!("expected Argument, got {:?}", other),
    }
}

#[test]
fn key_value_argument_parsing() {
    let (k, v) = neomake::args::parse_arg("foo.bar=baz").unwrap();
    assert_eq!(k, "foo.bar");
    assert_eq!(v, "baz");
    let (k2, v2) = neomake::args::parse_arg("a=b=c").unwrap();
    assert_eq!(k2, "a");
    assert_eq!(v2, "b=c");
    let (k3, v3) = neomake::args::parse_arg("empty=").unwrap();
    assert_eq!(k3, "empty");
    assert_eq!(v3, "");
    assert!(neomake::args::parse_arg("novalue").is_err());
}

#[test]
fn experimental_gating() {
    let watch_cmd = || Command::Watch {
        workflow: String::new(),
        watch: "w".to_owned(),
        args: vec![],
        workers: 1,
        root: "./".to_owned(),
    };
    let gated = CallArgs { privileges: Privilege::Normal, command: watch_cmd() };
    match gated.validate().unwrap_err() {
        Error::ExperimentalCommand(m) => assert_eq!(m, "watch"),
        other => panic!("expected ExperimentalCommand, got {:?}", other),
    }
    let allowed = CallArgs { privileges: Privilege::Experimental, command: watch_cmd() };
    assert!(allowed.validate().is_ok());
    let plain = CallArgs { privileges: Privilege::Normal, command: Command::WorkflowSchema };
    assert!(plain.validate().is_ok());
}

#[test]
fn argument_context_as_json() {
    let args = vec![
        ("foo.bar".to_owned(), "baz".to_owned()),
        ("foo.qux".to_owned(), "2".to_owned()),
        ("top".to_owned(), "t".to_owned()),
    ];
    let tree = build_args(&args);
    assert_eq!(to_json(&tree), "{\"foo\":{\"bar\":\"baz\",\"qux\":\"2\"},\"top\":\"t\"}");
}

#[test]
fn argument_context_first_write_wins() {
    let args = vec![
        ("k".to_owned(), "first".to_owned()),
        ("k".to_owned(), "second".to_owned()),
    ];
    let tree = build_args(&args);
    assert_eq!(to_json(&tree), "{\"k\":\"first\"}");
}

#[test]
fn argument_context_escapes_json() {
    let args = vec![("k".to_owned(), "a\"b\\c\nd".to_owned())];
    let tree = build_args(&args);
    assert_eq!(to_json(&tree), "{\"k\":\"a\\\"b\\\\c\\nd\"}");
}

#[test]
fn controller_renders_prefixed_lines() {
    let on = Controller::new(true, "==> ".to_owned());
    assert_eq!(on.render_line("hello").unwrap(), "==> hello\n");
    let off = Controller::new(false, "==> ".to_owned());
    assert!(off.render_line("hello").is_none());
}

#[test]
fn init_templates_declare_supported_version() {
    for t in [InitTemplate::Min, InitTemplate::Max, InitTemplate::Python] {
        let text = t.render();
        assert!(text.starts_with("version: \"0.5\""));
    }
}

#[test]
fn watch_event_text_and_filtering() {
    assert_eq!(
        event_text(&EventKind::ModifiedDataContent, "src/main.rs"),
        "modified/data/content|src/main.rs"
    );
    assert_eq!(EventKind::AccessCloseWrite.canonical(), "access/close/write");
    let entry = WatchEntry {
        filter: "^modified/.*\\.rs$".to_owned(),
        queue: false,
        node: "build".to_owned(),
    };
    let pat = Pattern::new(&entry.filter).unwrap();
    let base = vec![("user".to_owned(), "arg".to_owned())];
    let hit = event_action(&entry, &pat, false, &EventKind::ModifiedAny, "lib.rs", &base)
        .unwrap()
        .unwrap();
    assert_eq!(hit.len(), 4);
    assert_eq!(hit[0], ("EVENT".to_owned(), "modified/any|lib.rs".to_owned()));
    assert_eq!(hit[1], ("EVENT_KIND".to_owned(), "modified/any".to_owned()));
    assert_eq!(hit[2], ("EVENT_PATH".to_owned(), "lib.rs".to_owned()));
    assert_eq!(hit[3], ("user".to_owned(), "arg".to_owned()));
    // a non-matching event is dropped
    let miss = event_action(&entry, &pat, false, &EventKind::CreatedFile, "lib.rs", &base).unwrap();
    assert!(miss.is_none());
    // single-flight drops matched events while busy
    let busy = event_action(&entry, &pat, true, &EventKind::ModifiedAny, "lib.rs", &base).unwrap();
    assert!(busy.is_none());
    // a queueing entry accepts even while busy
    let q = WatchEntry { filter: ".*".to_owned(), queue: true, node: "build".to_owned() };
    let qpat = Pattern::new(&q.filter).unwrap();
    assert!(event_action(&q, &qpat, true, &EventKind::Any, "x", &base).unwrap().is_some());
}

#[test]
fn watch_entry_lookup() {
    let entry = WatchEntry { filter: ".*".to_owned(), queue: false, node: "a".to_owned() };
    let w = Workflow {
        version: "0.5".to_owned(),
        env: None,
        nodes: vec![],
        watch: Some(vec![("onchange".to_owned(), entry)]),
    };
    assert!(w.wf_check());
    assert_eq!(w.watch_entry("onchange").unwrap().node, "a");
    match w.watch_entry("other").unwrap_err() {
        Error::NotFound(m) => assert_eq!(m, "no watch node named other in config"),
        other => panic!("expected NotFound, got {:?}", other),
    }
    let none = Workflow { version: "0.5".to_owned(), env: None, nodes: vec![], watch: None };
    match none.watch_entry("x").unwrap_err() {
        Error::NotFound(m) => assert_eq!(m, "no watch node in config"),
        other => panic!("expected NotFound, got {:?}", other),
    }
}

#[test]
fn env_block_compile_without_capture() {
    let mut vars = EnvMap::new();
    vars.set("A".to_owned(), "1".to_owned());
    let block = Env { capture: None, vars: Some(vars) };
    let mut proc_env = EnvMap::new();
    proc_env.set("B".to_owned(), "2".to_owned());
    let out = block.compile(&proc_env).unwrap();
    assert_eq!(out.get("A").unwrap(), "1");
    assert!(out.get("B").is_none());
}

#[test]
fn workflow_wf_check_rejects_duplicate_names() {
    let mk = || neomake::workflow::Node {
        description: None,
        pre: None,
        matrix: None,
        tasks: vec![],
        env: None,
        shell: None,
        workdir: None,
    };
    let w = Workflow {
        version: "0.5".to_owned(),
        env: None,
        nodes: vec![("a".to_owned(), mk()), ("a".to_owned(), mk())],
        watch: None,
    };
    assert!(!w.wf_check());
}
