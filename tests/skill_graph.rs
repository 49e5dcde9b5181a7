use agenthub_runtime::skill_graph::{DependencySpec, GraphError, SkillGraph, SkillNode};

fn node(id: &str, deps: &[(&str, &[&str])]) -> SkillNode {
    SkillNode {
        skill_id: id.into(),
        dependencies: deps
            .iter()
            .map(|(s, f)| DependencySpec {
                source_skill: (*s).into(),
                fields: f.iter().map(|x| (*x).to_string()).collect(),
            })
            .collect(),
    }
}

#[test]
fn linear_order() {
    let graph = SkillGraph::new(vec![
        SkillNode {
            skill_id: "a".into(),
            dependencies: vec![],
        },
        SkillNode {
            skill_id: "b".into(),
            dependencies: vec![DependencySpec {
                source_skill: "a".into(),
                fields: vec!["result".into()],
            }],
        },
        SkillNode {
            skill_id: "c".into(),
            dependencies: vec![DependencySpec {
                source_skill: "b".into(),
                fields: vec![],
            }],
        },
    ]);
    let order = graph.topological_order().ok().expect("should succeed");
    assert_eq!(order, vec!["a", "b", "c"]);
}

#[test]
fn detects_cycle() {
    let graph = SkillGraph::new(vec![
        SkillNode {
            skill_id: "a".into(),
            dependencies: vec![DependencySpec {
                source_skill: "b".into(),
                fields: vec![],
            }],
        },
        SkillNode {
            skill_id: "b".into(),
            dependencies: vec![DependencySpec {
                source_skill: "a".into(),
                fields: vec![],
            }],
        },
    ]);
    assert!(graph.topological_order().is_err());
}

#[test]
fn missing_dep() {
    let graph = SkillGraph::new(vec![SkillNode {
        skill_id: "a".into(),
        dependencies: vec![DependencySpec {
            source_skill: "nonexistent".into(),
            fields: vec![],
        }],
    }]);
    assert!(graph.validate().is_err());
}

#[test]
fn diamond_order() {
    let graph = SkillGraph::new(vec![
        SkillNode {
            skill_id: "a".into(),
            dependencies: vec![],
        },
        SkillNode {
            skill_id: "b".into(),
            dependencies: vec![DependencySpec {
                source_skill: "a".into(),
                fields: vec![],
            }],
        },
        SkillNode {
            skill_id: "c".into(),
            dependencies: vec![DependencySpec {
                source_skill: "a".into(),
                fields: vec![],
            }],
        },
        SkillNode {
            skill_id: "d".into(),
            dependencies: vec![
                DependencySpec {
                    source_skill: "b".into(),
                    fields: vec![],
                },
                DependencySpec {
                    source_skill: "c".into(),
                    fields: vec![],
                },
            ],
        },
    ]);
    let order = graph.topological_order().ok().expect("should succeed");
    assert_eq!(order[0], "a");
    assert_eq!(order[3], "d");
}

#[test]
fn ready_nodes_go_in_ascending_order() {
    let graph = SkillGraph::new(vec![
        node("zeta", &[]),
        node("beta", &[("alpha", &[])]),
        node("alpha", &[]),
        node("gamma", &[("zeta", &[])]),
    ]);
    let order = graph.topological_order().ok().expect("acyclic");
    assert_eq!(order, vec!["alpha", "beta", "zeta", "gamma"]);
    // Asking twice gives the same order.
    assert_eq!(graph.topological_order().ok().expect("acyclic"), order);
}

#[test]
fn every_node_follows_its_dependencies() {
    let graph = SkillGraph::new(vec![
        node("d", &[("b", &[]), ("c", &["x"])]),
        node("c", &[("a", &[])]),
        node("b", &[("a", &[])]),
        node("a", &[]),
    ]);
    let order = graph.topological_order().ok().expect("acyclic");
    let pos = |id: &str| order.iter().position(|x| x == id).expect("present");
    assert_eq!(order.len(), 4);
    assert!(pos("a") < pos("b"));
    assert!(pos("a") < pos("c"));
    assert!(pos("b") < pos("d"));
    assert!(pos("c") < pos("d"));
}

#[test]
fn self_dependency_and_longer_cycles_are_rejected() {
    let g1 = SkillGraph::new(vec![node("a", &[("a", &[])])]);
    assert!(matches!(g1.validate(), Err(GraphError::CycleDetected)));
    let g2 = SkillGraph::new(vec![
        node("a", &[("c", &[])]),
        node("b", &[("a", &[])]),
        node("c", &[("b", &[])]),
        node("d", &[]),
    ]);
    assert!(matches!(g2.topological_order(), Err(GraphError::CycleDetected)));
}

#[test]
fn missing_dependency_names_skill_and_source() {
    let graph = SkillGraph::new(vec![
        node("a", &[]),
        node("b", &[("a", &[]), ("ghost", &[]), ("phantom", &[])]),
    ]);
    match graph.validate() {
        Err(GraphError::MissingDependency { skill, missing }) => {
            assert_eq!(skill, "b");
            assert_eq!(missing, "ghost");
        }
        _ => panic!("expected a missing dependency"),
    }
    let e = GraphError::MissingDependency { skill: "b".into(), missing: "ghost".into() };
    assert_eq!(e.message(), "missing dependency: skill 'b' depends on 'ghost'");
    assert_eq!(GraphError::CycleDetected.message(), "cycle detected in skill graph");
}

#[test]
fn duplicate_ids_cannot_be_ordered() {
    let graph = SkillGraph::new(vec![node("a", &[]), node("a", &[])]);
    assert!(matches!(graph.topological_order(), Err(GraphError::CycleDetected)));
}

#[test]
fn empty_graph_is_valid() {
    let graph = SkillGraph::new(vec![]);
    assert!(graph.validate().is_ok());
    assert!(graph.topological_order().ok().expect("empty").is_empty());
}

#[test]
fn cycle_through_three_nodes_reaches_validate() {
    let graph = SkillGraph::new(vec![
        node("x", &[]),
        node("a", &[("x", &[]), ("c", &[])]),
        node("b", &[("a", &["f"])]),
        node("c", &[("b", &[])]),
    ]);
    assert!(matches!(graph.validate(), Err(GraphError::CycleDetected)));
}
