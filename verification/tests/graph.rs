use action_orc::builder::{AsGraphEntry, GraphBuilder, GraphEntry, Tag};
use action_orc::dag::{SortingError, DAG};
use action_orc::{Graph, GraphError, Meta, NodeId};

struct A;
struct B;
struct C;
struct D;
struct E;
struct F;
struct X;
struct Y;
struct Enter;
struct Exit;

fn names(g: &Graph, ids: &[NodeId]) -> Vec<&'static str> {
    ids.iter().map(|&id| g.meta()[id].name()).collect()
}

fn sorted_names(g: &Graph) -> Vec<&'static str> {
    let order = g.sort_ordered().unwrap();
    names(g, &order)
}

fn dag_names(g: &DAG<char>, ids: &[NodeId]) -> Vec<&'static str> {
    ids.iter().map(|&id| g.name_of(id)).collect()
}

fn dag_sorted_names(g: &DAG<char>) -> Vec<&'static str> {
    let order = g.topological_sort().unwrap();
    dag_names(g, &order)
}

#[test]
fn tests_simple_graph() {
    let mut g = Graph::new();
    let a = g.add_node::<A>("A");
    let b = g.add_node::<B>("B");
    let c = g.add_node::<C>("C");
    let d = g.add_node::<D>("D");
    let e = g.add_node::<E>("E");
    let f = g.add_node::<F>("F");

    g.add_edge(a, b);
    g.add_edge(b, c);
    g.add_edge(c, d);
    g.add_edge(d, e);
    g.add_edge(e, f);

    assert_eq!(names(&g, &g.sources()), vec!["A"]);
    assert_eq!(names(&g, &g.sinks()), vec!["F"]);

    let mut g = DAG::<char>::new();
    let a = g.add_node::<A>("A");
    let b = g.add_node::<B>("B");
    let c = g.add_node::<C>("C");
    let d = g.add_node::<D>("D");
    let e = g.add_node::<E>("E");
    let f = g.add_node::<F>("F");

    g.add_edge(a, b);
    g.add_edge(b, c);
    g.add_edge(c, d);
    g.add_edge(d, e);
    g.add_edge(e, f);

    assert_eq!(dag_names(&g, &g.roots()), vec!["A"]);
    assert_eq!(dag_names(&g, &g.leaves()), vec!["F"]);
}

#[test]
fn tests_topological_sort() {
    let mut g = Graph::new();
    let a = g.add_node::<A>("A");
    let b = g.add_node::<B>("B");
    let c = g.add_node::<C>("C");
    let d = g.add_node::<D>("D");
    let e = g.add_node::<E>("E");
    let f = g.add_node::<F>("F");

    g.add_edge(a, b);
    g.add_edge(a, c);
    g.add_edge(a, e);
    g.add_edge(b, d);
    g.add_edge(c, d);
    g.add_edge(e, f);

    assert_eq!(sorted_names(&g), vec!["A", "B", "C", "E", "D", "F"]);

    let mut g = DAG::<char>::new();
    let a = g.add_node::<A>("A");
    let b = g.add_node::<B>("B");
    let c = g.add_node::<C>("C");
    let d = g.add_node::<D>("D");
    let e = g.add_node::<E>("E");
    let f = g.add_node::<F>("F");

    g.add_edge(a, b);
    g.add_edge(a, c);
    g.add_edge(a, e);
    g.add_edge(b, d);
    g.add_edge(c, d);
    g.add_edge(e, f);

    assert_eq!(dag_sorted_names(&g), vec!["A", "B", "C", "E", "D", "F"]);
}

#[test]
fn tests_disjoint_sets() {
    let mut g = Graph::new();
    let a = g.add_node::<A>("A");
    let b = g.add_node::<B>("B");
    let x = g.add_node::<X>("X");
    let y = g.add_node::<Y>("Y");

    g.add_edge(a, b);
    g.add_edge(x, y);

    let sorted = sorted_names(&g);
    assert!(
        sorted.iter().position(|&name| name == "A").unwrap()
            < sorted.iter().position(|&name| name == "B").unwrap()
    );
    assert!(
        sorted.iter().position(|&name| name == "X").unwrap()
            < sorted.iter().position(|&name| name == "Y").unwrap()
    );

    let mut g = DAG::<char>::new();
    let a = g.add_node::<A>("A");
    let b = g.add_node::<B>("B");
    let x = g.add_node::<X>("X");
    let y = g.add_node::<Y>("Y");

    g.add_edge(a, b);
    g.add_edge(x, y);

    let sorted = dag_sorted_names(&g);
    assert!(
        sorted.iter().position(|&name| name == "A").unwrap()
            < sorted.iter().position(|&name| name == "B").unwrap()
    );
    assert!(
        sorted.iter().position(|&name| name == "X").unwrap()
            < sorted.iter().position(|&name| name == "Y").unwrap()
    );
}

#[test]
fn tests_cyclic_graph_returns_err() {
    let mut g = Graph::new();
    let a = g.add_node::<A>("A");
    let b = g.add_node::<B>("B");
    let c = g.add_node::<C>("C");

    g.add_edge(a, b);
    g.add_edge(b, c);
    g.add_edge(c, a);

    assert_eq!(g.sort_ordered().err(), Some(GraphError::CycleDetected));

    let mut g = DAG::<char>::new();
    let a = g.add_node::<A>("A");
    let b = g.add_node::<B>("B");
    let c = g.add_node::<C>("C");

    g.add_edge(a, b);
    g.add_edge(b, c);
    g.add_edge(c, a);

    assert_eq!(g.topological_sort().err(), Some(SortingError::CycleDetected));
}

#[test]
fn tests_empty_and_single_node() {
    let empty_g = Graph::new();
    assert_eq!(empty_g.sort_ordered().unwrap(), Vec::<NodeId>::new());

    let mut single_g = Graph::new();
    let _a = single_g.add_node::<A>("A");

    let sorted = single_g.sort_ordered().unwrap();
    assert_eq!(sorted.len(), 1);
    assert_eq!(single_g.meta()[sorted[0]].name(), "A");

    let empty_dag = DAG::<char>::new();
    assert_eq!(empty_dag.topological_sort().unwrap(), Vec::<NodeId>::new());

    let mut single_dag = DAG::<char>::new();
    let _a = single_dag.add_node::<A>("A");

    let sorted = single_dag.topological_sort().unwrap();
    assert_eq!(sorted.len(), 1);
    assert_eq!(single_dag.name_of(sorted[0]), "A");
}

#[test]
fn tests_diamond_dependency() {
    let mut g = Graph::new();
    let a = g.add_node::<A>("A");
    let b = g.add_node::<B>("B");
    let c = g.add_node::<C>("C");
    let d = g.add_node::<D>("D");

    g.add_edge(a, b);
    g.add_edge(a, c);
    g.add_edge(b, d);
    g.add_edge(c, d);

    let sorted = sorted_names(&g);
    assert_eq!(sorted[0], "A");
    assert_eq!(sorted[3], "D");
    assert!(sorted[1] == "B" || sorted[1] == "C");
    assert!(sorted[2] == "B" || sorted[2] == "C");

    let mut g = DAG::<char>::new();
    let a = g.add_node::<A>("A");
    let b = g.add_node::<B>("B");
    let c = g.add_node::<C>("C");
    let d = g.add_node::<D>("D");

    g.add_edge(a, b);
    g.add_edge(a, c);
    g.add_edge(b, d);
    g.add_edge(c, d);

    let sorted = dag_sorted_names(&g);
    assert_eq!(sorted[0], "A");
    assert_eq!(sorted[3], "D");
    assert!(sorted[1] == "B" || sorted[1] == "C");
    assert!(sorted[2] == "B" || sorted[2] == "C");
}

/// G: (a | b) -> c, H: x -> y, merged at (a | b)
#[test]
fn merge_into_parallel_set() {
    let mut g = Graph::new();
    let a = g.add_node::<A>("A");
    let b = g.add_node::<B>("B");
    let c = g.add_node::<C>("C");
    g.add_edge(a, c);
    g.add_edge(b, c);

    let mut h = Graph::new();
    let x = h.add_node::<X>("X");
    let y = h.add_node::<Y>("Y");
    h.add_edge(x, y);

    let _h_bounds = g.merge(&h, vec![a, b]);

    assert_eq!(sorted_names(&g), vec!["A", "B", "X", "Y", "C"]);
}

#[test]
fn merge_reports_bounds_and_rewires() {
    let mut g = Graph::new();
    let a = g.add_node::<A>("A");
    let c = g.add_node::<C>("C");
    g.add_edge(a, c);

    let mut h = Graph::new();
    let x = h.add_node::<X>("X");
    let y = h.add_node::<Y>("Y");
    h.add_edge(x, y);

    let bounds = g.merge(&h, vec![a]);
    assert_eq!(bounds.sources, vec![2]);
    assert_eq!(bounds.sinks, vec![3]);
    assert_eq!(g.adj()[a], vec![2]);
    assert_eq!(g.adj()[3], vec![c]);
    assert_eq!(g.in_degree(), &[0, 1, 1, 1]);
}

#[test]
fn merge_without_anchor_appends() {
    let mut g = Graph::new();
    let _a = g.add_node::<A>("A");
    let mut h = Graph::new();
    let x = h.add_node::<X>("X");
    let y = h.add_node::<Y>("Y");
    h.add_edge(x, y);

    let bounds = g.merge(&h, vec![]);
    assert_eq!(bounds.sources, vec![1]);
    assert_eq!(bounds.sinks, vec![2]);
    assert_eq!(g.adj()[1], vec![2]);
    assert_eq!(g.sources(), vec![0, 1]);
}

#[test]
fn nested_schedule_composition_sort() {
    let mut room = Graph::new();
    let enter = room.add_node::<Enter>("Enter");
    let exit = room.add_node::<Exit>("Exit");
    room.add_edge(enter, exit);

    let mut combat = Graph::new();
    let s = combat.add_node::<A>("SpawnEnemies");
    let f = combat.add_node::<B>("Fight");
    combat.add_edge(s, f);

    let mut loot = Graph::new();
    let r = loot.add_node::<C>("RollLoot");
    let p = loot.add_node::<D>("PickTreasure");
    loot.add_edge(r, p);

    let combat_bounds = room.merge(&combat, vec![enter]);
    let _loot_bounds = room.merge(&loot, combat_bounds.sinks);

    assert_eq!(
        sorted_names(&room),
        vec!["Enter", "SpawnEnemies", "Fight", "RollLoot", "PickTreasure", "Exit"]
    );
}

#[test]
fn add_edge_is_idempotent() {
    let mut g = Graph::new();
    let a = g.add_node::<A>("A");
    let b = g.add_node::<B>("B");
    g.add_edge(a, b);
    g.add_edge(a, b);
    assert_eq!(g.adj()[a], vec![b]);
    assert_eq!(g.in_degree(), &[0, 1]);
}

#[test]
fn self_loop_is_a_cycle() {
    let mut g = Graph::new();
    let a = g.add_node::<A>("A");
    g.add_edge(a, a);
    assert_eq!(g.sort_ordered(), Err(GraphError::CycleDetected));
}

#[test]
fn short_names_drop_the_module_path() {
    assert_eq!(action_orc::meta::short_type_name("my_crate::scenario::Entering"), "Entering");
    assert_eq!(action_orc::meta::short_type_name("Plain"), "Plain");
    assert_eq!(action_orc::meta::short_type_name("a:::b"), "b");
    assert_eq!(action_orc::meta::short_type_name("alloc::vec::Vec<my::T>"), "T>");
    assert_eq!(Meta::new::<A>("tests::A").name(), "A");
}

#[test]
fn builder_chains_nodes_and_graphs() {
    let mut sub = Graph::new();
    let x = sub.add_node::<X>("X");
    let y = sub.add_node::<Y>("Y");
    sub.add_edge(x, y);

    let mut builder = GraphBuilder::new();
    let a = builder.append(AsGraphEntry::as_entry(Tag::<A>::new("A")));
    let s = builder.append(AsGraphEntry::as_entry(&sub));
    let c = builder.append(GraphEntry::Node(Meta::new::<C>("C")));
    builder.connect(&a, &s);
    builder.connect(&s, &c);
    builder.connect(&a, &s);
    let g = builder.build();

    assert_eq!(names(&g, &(0..g.len()).collect::<Vec<_>>()), vec!["A", "X", "Y", "C"]);
    assert_eq!(sorted_names(&g), vec!["A", "X", "Y", "C"]);
    assert_eq!(g.adj()[0], vec![1]);
    assert_eq!(g.adj()[2], vec![3]);
    assert_eq!(g.in_degree(), &[0, 1, 1, 1]);
}
