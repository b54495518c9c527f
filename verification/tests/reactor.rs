use std::any::TypeId;

use action_orc::engine::reactor::{Event, Reactor, ReactorError, Resolution};
use action_orc::engine::schedule::Schedule;
use action_orc::engine::{release, NodeStatus};
use action_orc::Graph;

struct A;
struct B;
struct C;
struct D;
struct Unused;

/// a -> b, a -> c, b -> d, c -> d
fn diamond() -> Graph {
    let mut g = Graph::new();
    let a = g.add_node::<A>("A");
    let b = g.add_node::<B>("B");
    let c = g.add_node::<C>("C");
    let d = g.add_node::<D>("D");
    g.add_edge(a, b);
    g.add_edge(a, c);
    g.add_edge(b, d);
    g.add_edge(c, d);
    g
}

fn listen_all(r: &mut Reactor) {
    for t in [TypeId::of::<A>(), TypeId::of::<B>(), TypeId::of::<C>(), TypeId::of::<D>()] {
        r.listen_for(t).unwrap();
    }
}

#[test]
fn init_without_listeners_stops_at_the_first_source() {
    let r = Reactor::from(diamond());
    let (delivered, result) = r.init();
    assert!(delivered.is_empty());
    assert_eq!(result, Err(ReactorError::MissingListener));
}

#[test]
fn listening_for_an_unknown_type_is_refused() {
    let mut r = Reactor::from(diamond());
    assert_eq!(r.listen_for(TypeId::of::<Unused>()), Err(ReactorError::UnknownTypeId));
    assert_eq!(r.listen_for(TypeId::of::<A>()), Ok(()));
    assert_eq!(r.listen_for(TypeId::of::<A>()), Ok(()));
}

#[test]
fn a_diamond_runs_to_its_join() {
    let mut r = Reactor::from(diamond());
    listen_all(&mut r);
    assert_eq!(r.init(), (vec![(0, Event::Started)], Ok(())));
    assert_eq!(
        r.resolve(0, Resolution::Finished),
        (vec![(0, Event::Resolved(Resolution::Finished)), (1, Event::Started), (2, Event::Started)], Ok(()))
    );
    assert_eq!(r.resolve(1, Resolution::Cancelled), (vec![(1, Event::Resolved(Resolution::Cancelled))], Ok(())));
    assert_eq!(
        r.resolve(2, Resolution::Finished),
        (vec![(2, Event::Resolved(Resolution::Finished)), (3, Event::Started)], Ok(()))
    );
}

#[test]
fn a_missing_listener_stops_delivery_midway() {
    let mut r = Reactor::from(diamond());
    r.listen_for(TypeId::of::<A>()).unwrap();
    r.listen_for(TypeId::of::<B>()).unwrap();
    let (delivered, result) = r.resolve(0, Resolution::Finished);
    assert_eq!(delivered, vec![(0, Event::Resolved(Resolution::Finished)), (1, Event::Started)]);
    assert_eq!(result, Err(ReactorError::MissingListener));
}

#[test]
fn reset_restores_the_pending_counters() {
    let mut r = Reactor::from(diamond());
    listen_all(&mut r);
    r.resolve(0, Resolution::Finished);
    r.resolve(1, Resolution::Finished);
    r.reset();
    let (delivered, _) = r.resolve(1, Resolution::Finished);
    assert_eq!(delivered, vec![(1, Event::Resolved(Resolution::Finished))]);
    let (delivered, _) = r.resolve(2, Resolution::Finished);
    assert_eq!(delivered, vec![(2, Event::Resolved(Resolution::Finished)), (3, Event::Started)]);
}

#[test]
fn node_meta_lists_every_node() {
    let r = Reactor::from(diamond());
    let names: Vec<(usize, &str)> = r.node_meta().iter().map(|(id, m)| (*id, m.name())).collect();
    assert_eq!(names, vec![(0, "A"), (1, "B"), (2, "C"), (3, "D")]);
}

#[test]
fn the_schedule_starts_sources_and_releases_downstream() {
    let g = diamond();
    let mut s = Schedule::from(&g);
    assert_eq!(s.start(&g), vec![(0, NodeStatus::Started)]);
    assert_eq!(
        s.advance(&g, 0, action_orc::engine::Resolution::Finished),
        vec![
            (0, NodeStatus::Resolved(action_orc::engine::Resolution::Finished)),
            (1, NodeStatus::Started),
            (2, NodeStatus::Started)
        ]
    );
    assert_eq!(s.advance(&g, 1, action_orc::engine::Resolution::Finished).len(), 1);
    assert_eq!(s.advance(&g, 2, action_orc::engine::Resolution::Finished)[1], (3, NodeStatus::Started));
}

#[test]
fn release_counts_down_and_never_below_zero() {
    let mut deg = vec![2, 1, 0];
    let ready = release(&mut deg, &vec![0, 1, 2, 0, 0]);
    assert_eq!(deg, vec![0, 0, 0]);
    assert_eq!(ready, vec![1, 2, 0, 0]);
}
