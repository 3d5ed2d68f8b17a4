use react_loadable::action_map::ActionMap;
use react_loadable::ast::{Callee, Node, Program, Prop, PropName};
use react_loadable::graph::{get_referenced_modules, traverse, ModuleGraph, ModuleInfo, ModuleKind, ParseResult};
use react_loadable::manifest::{
    create_react_lodable_manifest, parse_actions_filter_map, parse_imports, ManifestError,
    ModuleActionMap, OptionActionMap, ParseError,
};
use react_loadable::matcher::parse_lodable_imports;

fn s(x: &str) -> String {
    x.to_string()
}

fn kv(key: &str, value: usize) -> Prop {
    Prop::KeyValue(PropName::Ident(s(key)), value)
}

/// `loadable(() => import("./X"), {loadableGenerated: {modules: ["./X"]}})`
fn wrapper_program() -> Program {
    Program {
        nodes: vec![
            Node::Other(vec![]),
            Node::Str(s("./X")),
            Node::Call(Callee::Import, vec![1]),
            Node::Arrow(2),
            Node::Str(s("./X")),
            Node::Array(vec![4]),
            Node::Object(vec![kv("modules", 5)]),
            Node::Object(vec![kv("loadableGenerated", 6)]),
            Node::Call(Callee::Expr(0), vec![3, 7]),
        ],
    }
}

/// `import("./a"); foo("b");`
fn plain_program() -> Program {
    Program {
        nodes: vec![
            Node::Str(s("./a")),
            Node::Call(Callee::Import, vec![0]),
            Node::Other(vec![]),
            Node::Str(s("b")),
            Node::Call(Callee::Expr(2), vec![3]),
        ],
    }
}

fn script(ident: &str, program: Program, references: Vec<usize>) -> ModuleInfo {
    ModuleInfo {
        ident: s(ident),
        kind: ModuleKind::Ecmascript(ParseResult::Parsed(program)),
        references,
    }
}

fn entries_of(m: &ActionMap) -> Vec<(String, String)> {
    let mut out = Vec::new();
    for i in 0..m.len() {
        out.push(m.get_index(i));
    }
    out
}

fn parse_error(e: ManifestError) -> ParseError {
    match e {
        ManifestError::Parse(p) => p,
        ManifestError::Graph(g) => panic!("unexpected graph error at {}", g.module),
    }
}

fn pairs(x: &[(&str, &str)]) -> Vec<(String, String)> {
    x.iter().map(|(k, v)| (s(k), s(v))).collect()
}

#[test]
fn manifest_empty_without_wrapper_calls() {
    let graph = ModuleGraph {
        modules: vec![
            script("A", plain_program(), vec![1, 2]),
            script("B", plain_program(), vec![]),
            script("C", plain_program(), vec![]),
        ],
    };
    let man = create_react_lodable_manifest(&graph, 0).ok().unwrap();
    assert_eq!(man.entries.len(), 0);
}

#[test]
fn wrapper_call_yields_modules_entry() {
    let program = wrapper_program();
    let found = parse_lodable_imports("B", &program).unwrap();
    assert_eq!(found, pairs(&[("modules", "[\"./X\"]")]));

    let graph = ModuleGraph {
        modules: vec![
            script("A", plain_program(), vec![1]),
            script("B", wrapper_program(), vec![]),
        ],
    };
    let man = create_react_lodable_manifest(&graph, 0).ok().unwrap();
    assert_eq!(man.entries.len(), 1);
    assert_eq!(man.entries[0].module, 1);
    assert_eq!(entries_of(&man.entries[0].actions), pairs(&[("modules", "[\"./X\"]")]));
}

#[test]
fn cycle_visits_each_module_once() {
    let graph = ModuleGraph {
        modules: vec![
            script("A", plain_program(), vec![1, 2]),
            script("B", plain_program(), vec![0, 2]),
            script("C", plain_program(), vec![]),
        ],
    };
    let mut seen = traverse(&graph, &vec![0]).ok().unwrap();
    seen.sort();
    assert_eq!(seen, vec![0, 1, 2]);
}

#[test]
fn traversal_skips_unreachable_and_collapses_diamonds() {
    let graph = ModuleGraph {
        modules: vec![
            script("A", plain_program(), vec![1, 2]),
            script("B", plain_program(), vec![3]),
            script("C", plain_program(), vec![3, 3]),
            script("D", plain_program(), vec![]),
            script("E", plain_program(), vec![0]),
        ],
    };
    let mut seen = traverse(&graph, &vec![0]).ok().unwrap();
    seen.sort();
    assert_eq!(seen, vec![0, 1, 2, 3]);
    let mut from_two = traverse(&graph, &vec![3, 2, 3]).ok().unwrap();
    from_two.sort();
    assert_eq!(from_two, vec![2, 3]);
}

#[test]
fn unparseable_script_fails_the_manifest() {
    let graph = ModuleGraph {
        modules: vec![
            script("A", plain_program(), vec![1, 2]),
            script("B", wrapper_program(), vec![]),
            ModuleInfo {
                ident: s("D"),
                kind: ModuleKind::Ecmascript(ParseResult::Unparseable),
                references: vec![],
            },
        ],
    };
    let err = parse_error(create_react_lodable_manifest(&graph, 0).err().unwrap());
    assert_eq!(err.module, 2);
    assert_eq!(err.ident, "D");
    let err = parse_imports(&graph, 2).err().unwrap();
    assert_eq!(err.ident, "D");
}

#[test]
fn first_failing_module_is_reported() {
    let bad = |name: &str, refs: Vec<usize>| ModuleInfo {
        ident: s(name),
        kind: ModuleKind::Ecmascript(ParseResult::Unparseable),
        references: refs,
    };
    let graph = ModuleGraph {
        modules: vec![
            script("A", plain_program(), vec![3, 2]),
            bad("X", vec![]),
            bad("Y", vec![]),
            bad("Z", vec![]),
        ],
    };
    let err = parse_error(create_react_lodable_manifest(&graph, 0).err().unwrap());
    assert_eq!(err.module, 2);
    assert_eq!(err.ident, "Y");
}

#[test]
fn asset_module_is_absent() {
    let graph = ModuleGraph {
        modules: vec![ModuleInfo { ident: s("E"), kind: ModuleKind::Other, references: vec![] }],
    };
    let r = parse_imports(&graph, 0).ok().unwrap();
    assert!(r.0.is_none());
    assert!(parse_actions_filter_map(&graph, 0).ok().unwrap().is_none());
    let man = create_react_lodable_manifest(&graph, 0).ok().unwrap();
    assert_eq!(man.entries.len(), 0);
}

#[test]
fn no_wrapper_is_absent_not_empty() {
    assert!(parse_lodable_imports("A", &plain_program()).is_none());
    assert!(parse_lodable_imports("A", &Program { nodes: vec![] }).is_none());
    // `loadable(import("./X"))`: a loader without generated options is no
    // wrapper call.
    let bare = Program {
        nodes: vec![
            Node::Other(vec![]),
            Node::Str(s("./X")),
            Node::Call(Callee::Import, vec![1]),
            Node::Call(Callee::Expr(0), vec![2]),
        ],
    };
    assert_eq!(parse_lodable_imports("A", &bare), None);
    let graph = ModuleGraph { modules: vec![script("A", bare, vec![])] };
    assert!(parse_imports(&graph, 0).ok().unwrap().0.is_none());
    // `loadable(import("./X"), {loadableGenerated: {}})` is present and empty.
    let program = Program {
        nodes: vec![
            Node::Other(vec![]),
            Node::Str(s("./X")),
            Node::Call(Callee::Import, vec![1]),
            Node::Object(vec![]),
            Node::Object(vec![kv("loadableGenerated", 3)]),
            Node::Call(Callee::Expr(0), vec![2, 4]),
        ],
    };
    assert_eq!(parse_lodable_imports("A", &program), Some(vec![]));
    let graph = ModuleGraph { modules: vec![script("A", program, vec![])] };
    let r = parse_imports(&graph, 0).ok().unwrap();
    assert_eq!(r.0.map(|m| m.len()), Some(0));
}

#[test]
fn loader_without_options_gives_empty_manifest() {
    // `loadable(() => import("./X"), {ssr: false})` in B and C.
    let program = || Program {
        nodes: vec![
            Node::Other(vec![]),
            Node::Str(s("./X")),
            Node::Call(Callee::Import, vec![1]),
            Node::Arrow(2),
            Node::Other(vec![]),
            Node::Object(vec![kv("ssr", 4)]),
            Node::Call(Callee::Expr(0), vec![3, 5]),
        ],
    };
    let graph = ModuleGraph {
        modules: vec![
            script("A", plain_program(), vec![1, 2]),
            script("B", program(), vec![]),
            script("C", program(), vec![]),
        ],
    };
    let man = create_react_lodable_manifest(&graph, 0).ok().unwrap();
    assert_eq!(man.entries.len(), 0);
}

/// `n` calls `loadable(import("./M"), {loadableGenerated: {modules: "m<i>"}})`.
fn many_wrappers(n: usize) -> Program {
    let mut nodes = vec![Node::Other(vec![]), Node::Str(s("./M"))];
    for i in 0..n {
        let base = nodes.len();
        nodes.push(Node::Call(Callee::Import, vec![1]));
        nodes.push(Node::Str(format!("m{}", i)));
        nodes.push(Node::Object(vec![kv("modules", base + 1)]));
        nodes.push(Node::Object(vec![kv("loadableGenerated", base + 2)]));
        nodes.push(Node::Call(Callee::Expr(0), vec![base, base + 3]));
    }
    Program { nodes }
}

#[test]
fn ordinals_keep_every_call() {
    let found = parse_lodable_imports("M", &many_wrappers(12)).unwrap();
    assert_eq!(found.len(), 12);
    assert_eq!(found[0], (s("0:modules"), s("m0")));
    assert_eq!(found[10], (s("10:modules"), s("m10")));
    assert_eq!(found[11], (s("11:modules"), s("m11")));
    let graph = ModuleGraph { modules: vec![script("M", many_wrappers(12), vec![])] };
    let m = parse_imports(&graph, 0).ok().unwrap().0.unwrap();
    let keys: Vec<String> = entries_of(&m).into_iter().map(|(k, _)| k).collect();
    assert_eq!(keys[0], "0:modules");
    assert_eq!(keys[1], "10:modules");
    assert_eq!(keys[2], "11:modules");
    assert_eq!(keys[3], "1:modules");
    assert_eq!(keys.len(), 12);
    let single = parse_lodable_imports("M", &many_wrappers(1)).unwrap();
    assert_eq!(single, pairs(&[("modules", "m0")]));
}

/// `loadable(import("./Y"), {loadableGenerated: {webpack: "w", "b": "2", a: x, [k]: "c", ...s}})`
fn unsorted_program() -> Program {
    Program {
        nodes: vec![
            Node::Other(vec![]),
            Node::Str(s("./Y")),
            Node::Call(Callee::Import, vec![1]),
            Node::Str(s("w")),
            Node::Str(s("2")),
            Node::Other(vec![]),
            Node::Str(s("c")),
            Node::Object(vec![
                kv("webpack", 3),
                Prop::KeyValue(PropName::Str(s("b")), 4),
                kv("a", 5),
                Prop::KeyValue(PropName::Other, 6),
                Prop::Other,
            ]),
            Node::Object(vec![kv("other", 6), kv("loadableGenerated", 7)]),
            Node::Call(Callee::Expr(0), vec![2, 8]),
        ],
    }
}

#[test]
fn keys_come_out_sorted_and_bad_values_are_skipped() {
    let found = parse_lodable_imports("M", &unsorted_program()).unwrap();
    assert_eq!(found, pairs(&[("webpack", "w"), ("b", "2")]));
    let graph = ModuleGraph { modules: vec![script("M", unsorted_program(), vec![])] };
    let r = parse_imports(&graph, 0).ok().unwrap();
    assert_eq!(entries_of(&r.0.unwrap()), pairs(&[("b", "2"), ("webpack", "w")]));
}

#[test]
fn extraction_twice_gives_the_same_map() {
    let graph = ModuleGraph { modules: vec![script("M", unsorted_program(), vec![])] };
    let first = parse_imports(&graph, 0).ok().unwrap().0.unwrap();
    let second = parse_imports(&graph, 0).ok().unwrap().0.unwrap();
    assert_eq!(entries_of(&first), entries_of(&second));
}

#[test]
fn later_pair_overrides_earlier_one() {
    let m = ActionMap::from_pairs(&pairs(&[("z", "1"), ("a", "2"), ("z", "3"), ("m", "4")]));
    assert_eq!(entries_of(&m), pairs(&[("a", "2"), ("m", "4"), ("z", "3")]));
    let m = ActionMap::from_pairs(&pairs(&[("b", ""), ("B", "x"), ("ab", "y"), ("é", "z")]));
    assert_eq!(entries_of(&m), pairs(&[("B", "x"), ("ab", "y"), ("b", ""), ("é", "z")]));
}

#[test]
fn several_wrapper_calls_are_merged() {
    // Two wrapper calls, the second nested in an arrow function body, and an
    // array with a non-string element (skipped).
    let program = Program {
        nodes: vec![
            Node::Other(vec![]),
            Node::Str(s("./P")),
            Node::Call(Callee::Import, vec![1]),
            Node::Str(s("p1")),
            Node::Str(s("p2")),
            Node::Array(vec![3, 4]),
            Node::Object(vec![kv("modules", 5), kv("id", 4)]),
            Node::Object(vec![kv("loadableGenerated", 6)]),
            Node::Call(Callee::Expr(0), vec![2, 7]),
            Node::Str(s("./Q")),
            Node::Call(Callee::Import, vec![9]),
            Node::Arrow(10),
            Node::Other(vec![]),
            Node::Array(vec![3, 12]),
            Node::Str(s("q")),
            Node::Object(vec![kv("id", 14), kv("modules", 13), kv("extra", 0)]),
            Node::Object(vec![kv("loadableGenerated", 15)]),
            Node::Call(Callee::Expr(0), vec![11, 16]),
            Node::Arrow(17),
            Node::Other(vec![8, 18]),
        ],
    };
    let found = parse_lodable_imports("M", &program).unwrap();
    assert_eq!(
        found,
        pairs(&[("0:modules", "[\"p1\",\"p2\"]"), ("0:id", "p2"), ("1:id", "q")])
    );
    let graph = ModuleGraph { modules: vec![script("M", program, vec![])] };
    let r = parse_imports(&graph, 0).ok().unwrap().0.unwrap();
    assert_eq!(
        entries_of(&r),
        pairs(&[("0:id", "p2"), ("0:modules", "[\"p1\",\"p2\"]"), ("1:id", "q")])
    );
}

#[test]
fn loader_must_be_a_dynamic_import() {
    // `loadable(() => foo(), {loadableGenerated: {a: "b"}})` and `import(x, {...})`
    let program = Program {
        nodes: vec![
            Node::Other(vec![]),
            Node::Call(Callee::Expr(0), vec![]),
            Node::Arrow(1),
            Node::Str(s("b")),
            Node::Object(vec![kv("a", 3)]),
            Node::Object(vec![kv("loadableGenerated", 4)]),
            Node::Call(Callee::Expr(0), vec![2, 5]),
            Node::Call(Callee::Import, vec![0, 5]),
            Node::Call(Callee::Super, vec![7, 5]),
            Node::Call(Callee::Expr(0), vec![99, 5]),
        ],
    };
    assert!(parse_lodable_imports("M", &program).is_none());
}

#[test]
fn manifest_counts_only_present_results() {
    let graph = ModuleGraph {
        modules: vec![
            script("A", plain_program(), vec![1, 2, 3]),
            script("B", wrapper_program(), vec![4]),
            ModuleInfo { ident: s("img"), kind: ModuleKind::Other, references: vec![] },
            script("C", plain_program(), vec![]),
            script("D", unsorted_program(), vec![1]),
            script("U", wrapper_program(), vec![]),
        ],
    };
    let man = create_react_lodable_manifest(&graph, 0).ok().unwrap();
    let modules: Vec<usize> = man.entries.iter().map(|e| e.module).collect();
    assert_eq!(modules, vec![1, 4]);
    assert_eq!(entries_of(&man.entries[1].actions), pairs(&[("b", "2"), ("webpack", "w")]));
}

#[test]
fn small_constructors() {
    assert!(OptionActionMap::none().0.is_none());
    assert_eq!(ModuleActionMap::empty().entries.len(), 0);
    let graph = ModuleGraph { modules: vec![script("A", plain_program(), vec![0, 0])] };
    assert_eq!(get_referenced_modules(&graph, 0), &vec![0, 0]);
    assert_eq!(traverse(&graph, &vec![0]).ok().unwrap(), vec![0]);
    let got = parse_actions_filter_map(
        &ModuleGraph { modules: vec![script("B", wrapper_program(), vec![])] },
        0,
    )
    .ok()
    .unwrap()
    .unwrap();
    assert_eq!(got.module, 0);
    assert_eq!(got.actions.len(), 1);
}

#[test]
fn dangling_reference_fails_traversal() {
    let graph = ModuleGraph {
        modules: vec![
            script("A", plain_program(), vec![1]),
            script("B", wrapper_program(), vec![0, 7]),
            script("C", plain_program(), vec![9]),
        ],
    };
    let err = traverse(&graph, &vec![0]).err().unwrap();
    assert_eq!(err.module, 1);
    assert_eq!(err.ident, "B");
    match create_react_lodable_manifest(&graph, 0).err().unwrap() {
        ManifestError::Graph(g) => assert_eq!(g.ident, "B"),
        ManifestError::Parse(_) => panic!("expected a graph error"),
    }
    // C's dangling reference is not reachable from A, so it does no harm.
    let graph = ModuleGraph {
        modules: vec![
            script("A", plain_program(), vec![1]),
            script("B", wrapper_program(), vec![0]),
            script("C", plain_program(), vec![9]),
        ],
    };
    let man = create_react_lodable_manifest(&graph, 0).ok().unwrap();
    assert_eq!(man.entries.len(), 1);
    assert_eq!(man.entries[0].module, 1);
}

#[test]
fn graph_error_comes_before_parse_error() {
    let graph = ModuleGraph {
        modules: vec![
            ModuleInfo {
                ident: s("D"),
                kind: ModuleKind::Ecmascript(ParseResult::Unparseable),
                references: vec![1],
            },
            script("B", plain_program(), vec![5]),
        ],
    };
    match create_react_lodable_manifest(&graph, 0).err().unwrap() {
        ManifestError::Graph(g) => assert_eq!(g.module, 1),
        ManifestError::Parse(_) => panic!("expected a graph error"),
    }
}
