use pkglist::graph::{build_graph, graph_indices_valid, graph_inputs_valid, PackageInput, PackageType};

fn input(name: &str, size: u64, deps: Vec<usize>) -> PackageInput {
    PackageInput {
        name: name.to_string(),
        version: "1".to_string(),
        release: "1".to_string(),
        arch: "noarch".to_string(),
        installsize: size,
        summary: String::new(),
        description: String::new(),
        resolved_deps: deps,
        pkg_type: PackageType::Rpm,
        flatpak_deps: Vec::new(),
    }
}

// A -> B, C; B -> D; C -> D; E -> D
fn diamond() -> Vec<PackageInput> {
    vec![
        input("A", 10, vec![1, 2]),
        input("B", 5, vec![3]),
        input("C", 3, vec![3]),
        input("D", 7, vec![]),
        input("E", 2, vec![3]),
    ]
}

#[test]
fn transitive_sizes_count_each_dependency_once() {
    let g = build_graph(diamond());
    let t: Vec<u64> = g.packages.iter().map(|p| p.transitive_size).collect();
    assert_eq!(t, vec![25, 12, 10, 7, 9]);
}

#[test]
fn exclusive_sizes_keep_shared_dependencies() {
    let g = build_graph(diamond());
    let e: Vec<u64> = g.packages.iter().map(|p| p.exclusive_size).collect();
    // Removing A frees B and C, but D is still needed by E.
    assert_eq!(e, vec![18, 5, 3, 7, 2]);
}

#[test]
fn dependents_are_reverse_edges_in_index_order() {
    let g = build_graph(diamond());
    assert_eq!(g.packages[3].dependents, vec![1, 2, 4]);
    assert_eq!(g.packages[1].dependents, vec![0]);
    assert_eq!(g.packages[0].dependents, Vec::<usize>::new());
    assert_eq!(g.packages[0].dependencies, vec![1, 2]);
}

#[test]
fn duplicate_edges_count_twice_as_dependents() {
    let g = build_graph(vec![input("P", 1, vec![1, 1]), input("Q", 2, vec![])]);
    assert_eq!(g.packages[1].dependents, vec![0, 0]);
    assert_eq!(g.packages[0].exclusive_size, 3);
    assert_eq!(g.packages[0].transitive_size, 3);
}

#[test]
fn cycles_terminate_and_orphaned_cycles_are_freed() {
    // X -> Y, Y -> Z, Z -> Y
    let g = build_graph(vec![
        input("X", 1, vec![1]),
        input("Y", 2, vec![2]),
        input("Z", 4, vec![1]),
    ]);
    let t: Vec<u64> = g.packages.iter().map(|p| p.transitive_size).collect();
    let e: Vec<u64> = g.packages.iter().map(|p| p.exclusive_size).collect();
    assert_eq!(t, vec![7, 6, 6]);
    // Removing X frees the Y <-> Z cycle that nothing else needs; removing Z
    // keeps Y, which X still needs.
    assert_eq!(e, vec![7, 6, 4]);
}

#[test]
fn removing_a_package_frees_the_cycle_only_it_needs() {
    // a -> b, c; b -> c; c -> b
    let g = build_graph(vec![input("a", 1, vec![1, 2]), input("b", 10, vec![2]), input("c", 100, vec![1])]);
    assert_eq!(g.packages[0].transitive_size, 111);
    assert_eq!(g.packages[0].exclusive_size, 111);
    assert_eq!(g.packages[1].transitive_size, 110);
    assert_eq!(g.packages[1].exclusive_size, 10);
    assert_eq!(g.packages[2].exclusive_size, 100);
}

#[test]
fn a_cycle_needed_from_outside_stays() {
    // a -> b; b -> c; c -> b; d -> c
    let g = build_graph(vec![
        input("a", 1, vec![1]),
        input("b", 10, vec![2]),
        input("c", 100, vec![1]),
        input("d", 1000, vec![2]),
    ]);
    let e: Vec<u64> = g.packages.iter().map(|p| p.exclusive_size).collect();
    assert_eq!(e, vec![1, 10, 100, 1000]);
}

#[test]
fn leaf_package_sizes_equal_own_size() {
    let g = build_graph(diamond());
    assert_eq!(g.packages[3].transitive_size, 7);
    assert_eq!(g.packages[3].exclusive_size, 7);
}

#[test]
fn exclusive_never_exceeds_transitive() {
    let g = build_graph(diamond());
    for p in &g.packages {
        assert!(p.installsize <= p.exclusive_size);
        assert!(p.exclusive_size <= p.transitive_size);
    }
}

#[test]
fn name_index_maps_last_index() {
    let g = build_graph(vec![input("dup", 1, vec![]), input("other", 1, vec![]), input("dup", 2, vec![])]);
    assert_eq!(g.name_to_index.get("dup"), Some(&2));
    assert_eq!(g.name_to_index.get("other"), Some(&1));
    assert_eq!(g.name_to_index.get("missing"), None);
}

#[test]
fn empty_graph() {
    let g = build_graph(Vec::new());
    assert!(g.packages.is_empty());
}

#[test]
fn graph_inputs_validity() {
    assert!(graph_inputs_valid(&diamond()));
    assert!(!graph_inputs_valid(&vec![input("A", 1, vec![1])]));
    assert!(!graph_inputs_valid(&vec![input("A", u64::MAX, vec![]), input("B", 1, vec![])]));
    assert!(graph_inputs_valid(&vec![input("A", u64::MAX, vec![]), input("B", 0, vec![])]));
}

#[test]
fn built_graphs_have_valid_indices() {
    let mut g = build_graph(diamond());
    assert!(graph_indices_valid(&g));
    g.packages[0].dependencies.push(9);
    assert!(!graph_indices_valid(&g));
    let mut g = build_graph(diamond());
    g.packages[3].dependents.push(5);
    assert!(!graph_indices_valid(&g));
}
