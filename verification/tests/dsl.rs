use std::collections::HashMap;
use std::str::FromStr;

use action_orc::dsl::ast::{NodeExpr, SchedulingMode, SyntaxTree};
use action_orc::dsl::codegen::{CodegenError, CodegenFailure, ListVar, MergeAt, Plan, Stmt};
use action_orc::dsl::generate::{generate, within_limits};
use action_orc::dsl::parser::{parse, ParseError};
use action_orc::dsl::token::{Delimiter, Spacing, Token, TokenKind};
use action_orc::engine::schedule::Schedule;
use action_orc::engine::{NodeStatus, Resolution};
use action_orc::tasks::Event;
use action_orc::{Graph, NodeId};
use std::any::TypeId;
use proc_macro2::{TokenStream, TokenTree};

struct A;
struct B;
struct C;
struct D;
struct E;
struct F;
struct X;
struct Y;
struct Enter;
struct Exit;
struct SpawnEnemies;
struct Fight;
struct RollLoot;
struct PickTreasure;

fn convert(stream: TokenStream, next: &mut usize) -> Vec<Token> {
    let mut out = Vec::new();
    for tt in stream {
        let span = *next;
        *next += 1;
        let kind = match &tt {
            TokenTree::Ident(i) => TokenKind::Ident(i.to_string().chars().collect()),
            TokenTree::Punct(p) => TokenKind::Punct(
                p.as_char(),
                match p.spacing() {
                    proc_macro2::Spacing::Joint => Spacing::Joint,
                    proc_macro2::Spacing::Alone => Spacing::Alone,
                },
            ),
            TokenTree::Literal(l) => TokenKind::Literal(l.to_string().chars().collect()),
            TokenTree::Group(g) => TokenKind::Group(
                match g.delimiter() {
                    proc_macro2::Delimiter::Parenthesis => Delimiter::Parenthesis,
                    proc_macro2::Delimiter::Brace => Delimiter::Brace,
                    proc_macro2::Delimiter::Bracket => Delimiter::Bracket,
                    proc_macro2::Delimiter::None => Delimiter::Invisible,
                },
                convert(g.stream(), next),
            ),
        };
        out.push(Token { kind, span, raw: tt });
    }
    out
}

fn tokenize(src: &str) -> Vec<Token> {
    let mut next = 0;
    convert(TokenStream::from_str(src).unwrap(), &mut next)
}

fn text(v: &[char]) -> String {
    v.iter().collect()
}

fn list_key(l: &ListVar) -> String {
    match l {
        ListVar::GraphSource(g) => format!("_{}_source", text(g)),
        ListVar::GraphSink(g) => format!("_{}_sink", text(g)),
        ListVar::GroupSource(i) => format!("group_{}_source", i),
        ListVar::GroupSink(i) => format!("group_{}_sink", i),
    }
}

fn add_tagged(g: &mut Graph, key: &str) -> NodeId {
    match key {
        "A" => g.add_node::<A>("A"),
        "B" => g.add_node::<B>("B"),
        "C" => g.add_node::<C>("C"),
        "D" => g.add_node::<D>("D"),
        "E" => g.add_node::<E>("E"),
        "F" => g.add_node::<F>("F"),
        "X" => g.add_node::<X>("X"),
        "Y" => g.add_node::<Y>("Y"),
        "Enter" => g.add_node::<Enter>("Enter"),
        "Exit" => g.add_node::<Exit>("Exit"),
        "SpawnEnemies" => g.add_node::<SpawnEnemies>("SpawnEnemies"),
        "Fight" => g.add_node::<Fight>("Fight"),
        "RollLoot" => g.add_node::<RollLoot>("RollLoot"),
        "PickTreasure" => g.add_node::<PickTreasure>("PickTreasure"),
        other => panic!("unknown task type {other}"),
    }
}

/// Runs a plan the way the program the macro expands to runs it.
fn run(plan: Plan, embedded: &[(&str, &Graph)]) -> Graph {
    assert!(plan.errors.is_empty(), "the program has errors");
    let subs: HashMap<String, &Graph> = embedded.iter().map(|(n, g)| (n.to_string(), *g)).collect();
    let mut g = Graph::new();
    let mut vars: HashMap<String, NodeId> = HashMap::new();
    let mut lists: HashMap<String, Vec<NodeId>> = HashMap::new();
    for st in plan.decls.iter().chain(plan.links.iter()) {
        match st {
            Stmt::AddNode { var, typ } => {
                let id = add_tagged(&mut g, &text(&typ.key));
                vars.insert(text(var), id);
            }
            Stmt::AddEdge { from, to } => g.add_edge(vars[&text(from)], vars[&text(to)]),
            Stmt::Merge { sub, at } => {
                let at: Vec<NodeId> = match at {
                    MergeAt::Nodes(ids) => ids.iter().map(|v| vars[&text(v)]).collect(),
                    MergeAt::Moved(l) => lists.remove(&list_key(l)).unwrap(),
                    MergeAt::Cloned(l) => lists[&list_key(l)].clone(),
                };
                let name = text(sub);
                let merged = g.merge(subs[&name], at);
                lists.insert(format!("_{}_source", name), merged.sources);
                lists.insert(format!("_{}_sink", name), merged.sinks);
            }
            Stmt::NewGroup { id } => {
                lists.insert(format!("group_{}_source", id), Vec::new());
                lists.insert(format!("group_{}_sink", id), Vec::new());
            }
            Stmt::ExtendNodes { list, ids } => {
                let ids: Vec<NodeId> = ids.iter().map(|v| vars[&text(v)]).collect();
                lists.get_mut(&list_key(list)).unwrap().extend(ids);
            }
            Stmt::ExtendList { list, with } => {
                let with = lists[&list_key(with)].clone();
                lists.get_mut(&list_key(list)).unwrap().extend(with);
            }
            Stmt::EdgesFromList { from, to } => {
                for f in lists[&list_key(from)].clone() {
                    g.add_edge(f, vars[&text(to)]);
                }
            }
            Stmt::EdgesToList { from, to } => {
                for t in lists[&list_key(to)].clone() {
                    g.add_edge(vars[&text(from)], t);
                }
            }
            Stmt::EdgesBetweenLists { from, to } => {
                for f in lists[&list_key(from)].clone() {
                    for t in lists[&list_key(to)].clone() {
                        g.add_edge(f, t);
                    }
                }
            }
        }
    }
    g
}

fn plan(src: &str) -> Plan {
    generate(parse(&tokenize(src)).unwrap()).ok().unwrap()
}

fn task_graph(src: &str, embedded: &[(&str, &Graph)]) -> Graph {
    run(plan(src), embedded)
}

fn names(g: &Graph, ids: &[NodeId]) -> Vec<&'static str> {
    ids.iter().map(|&id| g.meta()[id].name()).collect()
}

fn order(g: &Graph) -> Vec<&'static str> {
    names(g, &g.sort_ordered().unwrap())
}

fn messages(plan: &Plan) -> Vec<String> {
    plan.errors
        .iter()
        .map(|e| match e {
            CodegenError::DuplicateUnboundType { type_key, .. } => format!("duplicate {}", text(type_key)),
            CodegenError::CircularDependency { from, to, .. } => format!("cycle {} -> {}", text(from), text(to)),
            CodegenError::VariableCollision { var, .. } => format!("collision {}", text(var)),
        })
        .collect()
}

#[test]
fn simple_graph_macro() {
    let g = task_graph("A -> B -> C -> D -> E -> F;", &[]);

    assert_eq!(names(&g, &g.sources()), vec!["A"]);
    assert_eq!(names(&g, &g.sinks()), vec!["F"]);
}

#[test]
fn diamond_dependency_macro() {
    let g = task_graph(
        "
        a: A; d: D;

        [a] -> B -> [d];
        [a] -> C -> [d];
        ",
        &[],
    );

    let sorted = order(&g);

    assert_eq!(sorted[0], "A");
    assert_eq!(sorted[3], "D");
    assert!(sorted[1] == "B" || sorted[1] == "C");
    assert!(sorted[2] == "B" || sorted[2] == "C");
}

#[test]
fn merge_into_parallel_set_macro() {
    let h = task_graph("X -> Y;", &[]);
    let g = task_graph("(A | B) -> #[h] -> C;", &[("h", &h)]);

    assert_eq!(order(&g), vec!["A", "B", "X", "Y", "C"]);
}

#[test]
fn embed_graph_inside_parallel_group_macro() {
    let sub = task_graph("X -> Y;", &[]);
    let g = task_graph("Enter -> ( A | #[sub] ) -> Exit;", &[("sub", &sub)]);

    let order = order(&g);
    assert_eq!(order[0], "Enter");
    assert!(order[1] == "A" || order[1] == "X");
    assert!(order[2] == "A" || order[2] == "X" || order[2] == "Y");
    assert_eq!(*order.last().unwrap(), "Exit");
}

#[test]
fn embed_graph_fan_out_to_parallel_set_macro() {
    let sub = task_graph("X -> Y;", &[]);
    let g = task_graph("#[sub] -> (A | B) -> C;", &[("sub", &sub)]);

    assert_eq!(order(&g), vec!["X", "Y", "A", "B", "C"]);
}

#[test]
fn standalone_embedding_macro() {
    let sub = task_graph("A -> B;", &[]);
    let g = task_graph("#[sub];", &[("sub", &sub)]);

    assert_eq!(order(&g), vec!["A", "B"]);
}

#[test]
fn nested_room_built_by_the_language() {
    let combat = task_graph("SpawnEnemies -> Fight;", &[]);
    let loot = task_graph("RollLoot -> PickTreasure;", &[]);
    let room = task_graph("Enter -> #[a] -> #[b] -> Exit;", &[("a", &combat), ("b", &loot)]);

    assert_eq!(order(&room), vec!["Enter", "SpawnEnemies", "Fight", "RollLoot", "PickTreasure", "Exit"]);
}

fn decl_key(n: &NodeExpr) -> (Option<String>, String) {
    match n {
        NodeExpr::Declaration(t) => (t.var.as_ref().map(|v| text(&v.name)), text(&t.typ.key)),
        _ => panic!("not a declaration"),
    }
}

#[test]
fn atomic_single_task() {
    let ast: SyntaxTree = parse(&tokenize("a: TaskA;")).unwrap();

    assert_eq!(ast.graphs.len(), 1);
    let g = &ast.graphs[0];
    assert_eq!(decl_key(&g.entry), (Some("a".to_string()), "TaskA".to_string()));
    assert!(g.conns.is_empty());
    assert!(!g.span_info.at_call_site);
}

#[test]
fn complex_graph() {
    let ast = parse(&tokenize(
        "
         enter: Entering -> inited: InitScene;

         [inited] -> (A | B | C) -> exit: Exiting;
     ",
    ))
    .unwrap();

    assert_eq!(ast.graphs.len(), 2);
    let first = &ast.graphs[0];
    assert_eq!(decl_key(&first.entry), (Some("enter".to_string()), "Entering".to_string()));
    assert_eq!(first.conns.len(), 1);
    assert_eq!(decl_key(&first.conns[0]), (Some("inited".to_string()), "InitScene".to_string()));

    let second = &ast.graphs[1];
    match &second.entry {
        NodeExpr::Binding(v) => assert_eq!(text(&v.name), "inited"),
        _ => panic!("expected a binding"),
    }
    assert_eq!(second.conns.len(), 2);
    match &second.conns[0] {
        NodeExpr::Group(b) => {
            assert_eq!(b.mode, SchedulingMode::Parallel);
            let keys: Vec<(Option<String>, String)> = b.graphs.iter().map(|g| decl_key(&g.entry)).collect();
            assert_eq!(
                keys,
                vec![(None, "A".to_string()), (None, "B".to_string()), (None, "C".to_string())]
            );
            assert!(b.graphs.iter().all(|g| g.conns.is_empty()));
        }
        _ => panic!("expected a group"),
    }
    assert_eq!(decl_key(&second.conns[1]), (Some("exit".to_string()), "Exiting".to_string()));
}

#[test]
fn type_paths_keep_generics_without_spaces() {
    let ast = parse(&tokenize("job: Vec < u8 >;")).unwrap();
    assert_eq!(decl_key(&ast.graphs[0].entry), (Some("job".to_string()), "Vec<u8>".to_string()));
    let ast = parse(&tokenize("my_mod::Entering<Main> -> C;")).unwrap();
    assert_eq!(decl_key(&ast.graphs[0].entry), (None, "my_mod::Entering<Main>".to_string()));
    assert_eq!(ast.graphs[0].conns.len(), 1);
    let ast = parse(&tokenize("enter: scenario::Entering<Dungeon>;")).unwrap();
    assert_eq!(
        decl_key(&ast.graphs[0].entry),
        (Some("enter".to_string()), "scenario::Entering<Dungeon>".to_string())
    );
}

#[test]
fn a_sequence_group_links_its_graphs_in_order() {
    let g = task_graph("(A, B, C) -> D;", &[]);
    assert_eq!(order(&g), vec!["A", "B", "C", "D"]);
}

fn error_at(src: &str) -> ParseError {
    match parse(&tokenize(src)) {
        Err(e) => e,
        Ok(_) => panic!("expected a parse error"),
    }
}

#[test]
fn unreadable_input_is_refused_where_reading_stops() {
    let e = error_at("A -> B; -> C; D;");
    assert_eq!((e.span.span, e.span.at_call_site), (5, false));
    let e = error_at("A -> ;");
    assert_eq!((e.span.span, e.span.at_call_site), (1, false));
    let e = error_at("A -> ");
    assert_eq!(e.span.span, 1);
    assert!(parse(&tokenize("")).unwrap().graphs.is_empty());
    assert_eq!(parse(&tokenize("A -> B")).unwrap().graphs.len(), 1);
    assert_eq!(parse(&tokenize("A; B;")).unwrap().graphs.len(), 2);
    assert!(parse(&tokenize("A;;")).is_err());
}

#[test]
fn a_repeated_anonymous_type_is_reported() {
    let p = plan("A -> B; A;");
    assert_eq!(messages(&p), vec!["duplicate A"]);
}

#[test]
fn a_repeated_variable_is_reported() {
    let p = plan("a: A; a: B;");
    assert_eq!(messages(&p), vec!["collision a"]);
}

#[test]
fn a_cycle_is_reported_with_its_ends() {
    let p = plan("a: A -> b: B; [b] -> [a];");
    assert_eq!(messages(&p), vec!["cycle node -> a"]);
    let q = plan("A -> b: B; [b] -> A;");
    assert_eq!(messages(&q), vec!["duplicate A"]);
    let r = plan("x: X -> Y -> [x];");
    assert_eq!(messages(&r), vec!["cycle Y -> x"]);
}

#[test]
fn an_undeclared_binding_fails_the_plan() {
    assert!(matches!(generate(parse(&tokenize("[a] -> B;")).unwrap()), Err(CodegenFailure::MissingSourceNode)));
    assert!(matches!(generate(parse(&tokenize("A -> [b];")).unwrap()), Err(CodegenFailure::MissingTargetNode)));
}

#[test]
fn anonymous_tasks_are_named_in_order() {
    let p = plan("A -> b: B -> C;");
    let vars: Vec<String> = p
        .decls
        .iter()
        .map(|s| match s {
            Stmt::AddNode { var, .. } => text(var),
            _ => panic!("declarations only"),
        })
        .collect();
    assert_eq!(vars, vec!["anon_0", "b", "anon_1"]);
}

#[test]
fn circular_dependencies_are_reported() {
    assert_eq!(messages(&plan("a: A -> b: B; [b] -> [a];")), vec!["cycle node -> a"]);
    assert_eq!(messages(&plan("a: A -> B -> [a];")), vec!["cycle B -> a"]);
    assert_eq!(messages(&plan("A -> #[combat] -> B -> #[combat];")), vec!["cycle B -> #[combat]"]);
}

#[test]
fn every_repeated_unbound_type_is_reported() {
    assert_eq!(messages(&plan("A -> B; A -> C; A -> D;")), vec!["duplicate A", "duplicate A"]);
}

#[test]
fn a_variable_declared_twice_is_reported() {
    assert_eq!(messages(&plan("a: A -> b: B; a: B;")), vec!["collision a"]);
}

#[test]
fn valid_programs_have_no_errors() {
    assert!(plan("enter: Entering -> inited: InitScene; [inited] -> exit: Exiting;").errors.is_empty());
    assert!(plan("Enter -> #[combat] -> #[loot] -> Exit;").errors.is_empty());
    assert!(plan("Enter -> ( TaskA | #[combat] | TaskB ) -> Exit;").errors.is_empty());
    assert!(plan("#[combat] -> Exit;").errors.is_empty());
}

#[test]
fn error_messages_read_as_reported() {
    let p = plan("a: A -> B -> [a]; a: C; D; D;");
    let texts: Vec<String> = p.errors.iter().map(|e| text(&e.message())).collect();
    assert_eq!(
        texts,
        vec![
            "Task Graph Error: Circular dependency: B -> a.".to_string(),
            "Task Graph Error: Variable a has been already declared.".to_string(),
            "Task Graph Error: Duplicate unbound type declaration: D.\nMultiple instances of the same task type must be assigned to unique variables (e.g., foo: D -> bar: D).".to_string(),
        ]
    );
}

#[test]
fn small_programs_are_within_limits() {
    assert!(within_limits(&parse(&tokenize("A -> (B | C) -> D;")).unwrap()));
    assert!(within_limits(&parse(&tokenize("")).unwrap()));
}

/// Drives a graph with the library's schedule, logging the notifications for
/// the subscribed task types under the tasks' names.
struct Runtime {
    graph: Graph,
    counters: Schedule,
    subscribed: Vec<TypeId>,
    log: Vec<(&'static str, Event)>,
}

impl Runtime {
    fn from(graph: Graph) -> Self {
        let counters = Schedule::from(&graph);
        Runtime { graph, counters, subscribed: Vec::new(), log: Vec::new() }
    }

    fn subscribe<T: 'static>(&mut self) {
        self.subscribed.push(TypeId::of::<T>());
    }

    fn notify(&mut self, id: NodeId, status: NodeStatus) {
        let meta = self.graph.meta()[id];
        if self.subscribed.contains(meta.type_id()) {
            let event = match status {
                NodeStatus::Started => Event::Started,
                NodeStatus::Resolved(_) => Event::Resolved,
            };
            self.log.push((meta.name(), event));
        }
    }

    fn init(&mut self) {
        for (id, status) in self.counters.start(&self.graph) {
            self.notify(id, status);
        }
    }

    fn resolve_task(&mut self, name: &str) {
        let id = (0..self.graph.len()).rev().find(|&i| self.graph.meta()[i].name() == name).unwrap();
        for (id, status) in self.counters.advance(&self.graph, id, Resolution::Finished) {
            self.notify(id, status);
        }
    }
}

#[test]
fn lifecycle_hooks() {
    let g = task_graph("A -> B -> C;", &[]);
    let mut runtime = Runtime::from(g);
    runtime.subscribe::<A>();
    runtime.subscribe::<B>();
    runtime.subscribe::<C>();
    assert_eq!(runtime.log, vec![]);

    runtime.init();
    assert_eq!(runtime.log, vec![("A", Event::Started)]);

    runtime.resolve_task("A");
    assert_eq!(runtime.log, vec![("A", Event::Started), ("A", Event::Resolved), ("B", Event::Started)]);

    runtime.resolve_task("B");
    assert_eq!(
        runtime.log,
        vec![
            ("A", Event::Started),
            ("A", Event::Resolved),
            ("B", Event::Started),
            ("B", Event::Resolved),
            ("C", Event::Started),
        ]
    );

    runtime.resolve_task("C");
    assert_eq!(
        runtime.log,
        vec![
            ("A", Event::Started),
            ("A", Event::Resolved),
            ("B", Event::Started),
            ("B", Event::Resolved),
            ("C", Event::Started),
            ("C", Event::Resolved),
        ]
    );
}

fn run_room(room: Graph) {
    let mut runtime = Runtime::from(room);
    runtime.subscribe::<Exit>();

    runtime.init();
    runtime.resolve_task("Enter");
    runtime.resolve_task("SpawnEnemies");
    runtime.resolve_task("Fight");
    runtime.resolve_task("RollLoot");

    assert!(runtime.log.is_empty(), "Exit blocked");

    runtime.resolve_task("PickTreasure");
    assert_eq!(runtime.log, vec![("Exit", Event::Started)]);
}

#[test]
fn nested_schedule_composition() {
    let mut room = Graph::new();
    let enter = room.add_node::<Enter>("Enter");
    let exit = room.add_node::<Exit>("Exit");
    room.add_edge(enter, exit);

    let mut combat = Graph::new();
    let spawn = combat.add_node::<SpawnEnemies>("SpawnEnemies");
    let fight = combat.add_node::<Fight>("Fight");
    combat.add_edge(spawn, fight);

    let mut loot = Graph::new();
    let roll = loot.add_node::<RollLoot>("RollLoot");
    let pick = loot.add_node::<PickTreasure>("PickTreasure");
    loot.add_edge(roll, pick);

    let combat_bounds = room.merge(&combat, vec![enter]);
    let _loot_bounds = room.merge(&loot, combat_bounds.sinks);

    run_room(room);
}

#[test]
fn nested_schedule_composition_macro() {
    let combat = task_graph("SpawnEnemies -> Fight;", &[]);
    let loot = task_graph("RollLoot -> PickTreasure;", &[]);
    let composed_room = task_graph("Enter -> #[a] -> #[b] -> Exit;", &[("a", &combat), ("b", &loot)]);

    run_room(composed_room);
}

#[test]
fn a_diamond_starts_its_join_once_both_sides_resolve() {
    let g = task_graph("a: A; d: D; [a] -> B -> [d]; [a] -> C -> [d];", &[]);
    let mut runtime = Runtime::from(g);
    runtime.subscribe::<D>();
    runtime.init();
    runtime.resolve_task("A");
    runtime.resolve_task("B");
    assert!(runtime.log.is_empty());
    runtime.resolve_task("C");
    assert_eq!(runtime.log, vec![("D", Event::Started)]);
}

#[test]
fn a_declaration_needs_a_rust_type() {
    assert_eq!(error_at("A; 3; B;").span.span, 2);
    assert_eq!(error_at("A; x: 3; B;").span.span, 3);
    let ast = parse(&tokenize("A; x: Option<u8>; B;")).unwrap();
    assert_eq!(ast.graphs.len(), 3);
}

#[test]
fn a_parenthesised_chain_is_a_sequence() {
    let ast = parse(&tokenize("X -> (A -> B -> C); Y;")).unwrap();
    assert_eq!(ast.graphs.len(), 2);
    match &ast.graphs[0].conns[0] {
        NodeExpr::Group(b) => {
            assert_eq!(b.mode, SchedulingMode::Sequence);
            assert_eq!(b.graphs.len(), 1);
            assert_eq!(b.graphs[0].conns.len(), 2);
        }
        _ => panic!("expected a group"),
    }
    let g = task_graph("X -> (A -> B) -> C;", &[]);
    assert_eq!(order(&g), vec!["X", "A", "B", "C"]);
    let ast = parse(&tokenize("X -> (A -> B | C); Y;")).unwrap();
    assert_eq!(ast.graphs.len(), 2);
}

#[test]
fn a_cycle_through_a_parallel_group_is_reported() {
    assert_eq!(messages(&plan("a: A -> (B | C) -> [a];")), vec!["cycle (group: group_0_sink) -> a"]);
    assert_eq!(messages(&plan("a: A -> (B | [a]);")), vec!["cycle node -> (group: group_0_source)"]);
    assert_eq!(messages(&plan("a: A -> (B, C) -> [a];")), vec!["cycle C -> a"]);
    assert!(plan("a: A -> (B | C) -> D; [a] -> E;").errors.is_empty());
    assert!(plan("(A | (B | C)) -> D;").errors.is_empty());
}

#[test]
fn a_later_declared_binding_inside_a_group_is_allowed() {
    let g = task_graph("X -> ([b] | C) -> D; b: B;", &[]);
    assert_eq!(order(&g), vec!["X", "B", "C", "D"]);
}

#[test]
fn merging_at_linked_nodes_closes_a_cycle_the_link_graph_lacks() {
    let p = plan("a: A -> b: B; ([a] | [b]) -> #[g];");
    assert!(p.errors.is_empty());
    let g = task_graph("X;", &[]);
    let built = task_graph("a: A -> b: B; ([a] | [b]) -> #[g];", &[("g", &g)]);
    assert_eq!(built.sort_ordered().err(), Some(action_orc::GraphError::CycleDetected));
}

#[test]
fn a_named_chain_links_each_task_to_the_next() {
    let p = plan("a: A; b: B; [a] -> [b] -> c: C;");
    let links: Vec<(String, String)> = p
        .links
        .iter()
        .map(|s| match s {
            Stmt::AddEdge { from, to } => (text(from), text(to)),
            _ => panic!("edges only"),
        })
        .collect();
    assert_eq!(links, vec![("a".to_string(), "b".to_string()), ("b".to_string(), "c".to_string())]);
}
