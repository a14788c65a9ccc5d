use yaiko::media_graph::{MediaGraph, MediaGraphError, NodeState};

#[test]
fn creates_deterministic_topological_plan() {
    let mut graph = MediaGraph::new(8);
    graph.add("render".into(), vec!["captions".into(), "audio".into()]).unwrap();
    graph.add("audio".into(), vec!["source".into()]).unwrap();
    graph.add("captions".into(), vec!["source".into()]).unwrap();
    graph.add("source".into(), Vec::<String>::new()).unwrap();
    assert_eq!(graph.plan().unwrap(), vec!["source", "audio", "captions", "render"]);
}

#[test]
fn rejects_missing_dependencies_cycles_duplicates_and_capacity() {
    let mut graph = MediaGraph::new(2);
    graph.add("a".into(), vec!["missing".into()]).unwrap();
    assert_eq!(graph.plan(), Err(MediaGraphError::MissingDependency));
    let mut cycle = MediaGraph::new(3);
    cycle.add("a".into(), vec!["b".into()]).unwrap();
    cycle.add("b".into(), vec!["a".into()]).unwrap();
    assert_eq!(cycle.plan(), Err(MediaGraphError::Cycle));
    assert_eq!(cycle.add("b".into(), Vec::<String>::new()), Err(MediaGraphError::DuplicateNode));
    cycle.add("c".into(), Vec::<String>::new()).unwrap();
    assert_eq!(cycle.add("d".into(), Vec::<String>::new()), Err(MediaGraphError::Capacity));
}

#[test]
fn propagates_failure_and_cancellation_to_dependents() {
    let mut graph = MediaGraph::new(8);
    graph.add("source".into(), Vec::<String>::new()).unwrap();
    graph.add("render".into(), vec!["source".into()]).unwrap();
    graph.add("preview".into(), vec!["render".into()]).unwrap();
    graph.mark_running("source").unwrap();
    graph.mark_failed("source").unwrap();
    assert_eq!(graph.state("render"), Some(NodeState::Cancelled));
    assert_eq!(graph.state("preview"), Some(NodeState::Cancelled));
}

#[test]
fn enforces_lifecycle_transitions() {
    let mut graph = MediaGraph::new(2);
    graph.add("source".into(), Vec::<String>::new()).unwrap();
    assert_eq!(graph.mark_succeeded("source"), Err(MediaGraphError::InvalidState));
    graph.mark_running("source").unwrap();
    graph.mark_succeeded("source").unwrap();
    assert_eq!(graph.mark_running("source"), Err(MediaGraphError::InvalidState));
}

#[test]
fn plan_puts_every_dependency_first_and_cancel_reaches_dependents() {
    let mut graph = MediaGraph::new(4);
    graph.add("b".into(), vec!["a".into()]).unwrap();
    graph.add("a".into(), Vec::<String>::new()).unwrap();
    graph.add("c".into(), vec!["b".into()]).unwrap();
    assert_eq!(graph.plan().unwrap(), vec!["a", "b", "c"]);
    assert_eq!(graph.len(), 3);
    assert!(!graph.is_empty());
    graph.cancel("a").unwrap();
    assert_eq!(graph.state("c"), Some(NodeState::Cancelled));
    assert_eq!(graph.add("".into(), Vec::<String>::new()), Err(MediaGraphError::EmptyId));
}
