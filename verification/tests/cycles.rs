use atml_language_core::cycles::detect_cycles;
use atml_language_core::semantic::CycleKind;

#[test]
fn detects_reference_cycle() {
    let path = |name: &str| vec![name.to_owned()];
    let cycles = detect_cycles(
        CycleKind::PathReference,
        &[(path("a"), path("b")), (path("b"), path("a"))],
    );
    assert_eq!(cycles.len(), 1);
    assert_eq!(cycles[0].kind, CycleKind::PathReference);
}

#[test]
fn detects_inheritance_cycle() {
    let path = |name: &str| vec![name.to_owned()];
    let cycles = detect_cycles(
        CycleKind::Inheritance,
        &[
            (path("child"), path("parent")),
            (path("parent"), path("child")),
        ],
    );
    assert_eq!(cycles.len(), 1);
    assert_eq!(cycles[0].kind, CycleKind::Inheritance);
}

#[test]
fn detects_cycle_through_second_parent() {
    let path = |name: &str| vec![name.to_owned()];
    let cycles = detect_cycles(
        CycleKind::Inheritance,
        &[
            (path("child"), path("safe")),
            (path("child"), path("parent")),
            (path("parent"), path("child")),
        ],
    );
    assert_eq!(cycles.len(), 1);
}

#[test]
fn acyclic_graphs_report_nothing_and_closing_an_edge_reports_the_cycle() {
    let path = |name: &str| vec![name.to_owned()];
    let mut edges = vec![
        (path("a"), path("b")),
        (path("b"), path("c")),
        (path("a"), path("c")),
        (path("d"), path("a")),
    ];
    assert!(detect_cycles(CycleKind::PathReference, &edges).is_empty());
    edges.push((path("c"), path("d")));
    let cycles = detect_cycles(CycleKind::PathReference, &edges);
    assert!(!cycles.is_empty());
    for cycle in &cycles {
        assert_eq!(cycle.paths.first(), cycle.paths.last());
        assert!(cycle.paths.len() >= 2);
    }
}

#[test]
fn reports_a_three_node_cycle_once_with_each_node_once() {
    let path = |name: &str| vec![name.to_owned()];
    let cycles = detect_cycles(
        CycleKind::PathReference,
        &[(path("a"), path("b")), (path("b"), path("c")), (path("c"), path("a"))],
    );
    assert_eq!(cycles.len(), 1);
    assert_eq!(cycles[0].paths, vec![path("a"), path("b"), path("c"), path("a")]);
}

#[test]
fn reports_each_of_two_separate_cycles() {
    let path = |name: &str| vec![name.to_owned()];
    let cycles = detect_cycles(
        CycleKind::Inheritance,
        &[
            (path("a"), path("b")),
            (path("b"), path("a")),
            (path("c"), path("d")),
            (path("d"), path("c")),
        ],
    );
    assert_eq!(cycles.len(), 2);
    assert_eq!(cycles[0].paths, vec![path("a"), path("b"), path("a")]);
    assert_eq!(cycles[1].paths, vec![path("c"), path("d"), path("c")]);
}
