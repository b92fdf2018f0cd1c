use pkglist::graph::{build_graph, DependencyGraph, PackageInput, PackageType};
use pkglist::listing::{
    lookup_package, name_column_width, package_type_name, select_packages, sorted_by_size_desc, SortBy,
};

fn input(name: &str, size: u64, deps: Vec<usize>, t: PackageType) -> PackageInput {
    PackageInput {
        name: name.to_string(),
        version: "1".to_string(),
        release: "1".to_string(),
        arch: "noarch".to_string(),
        installsize: size,
        summary: String::new(),
        description: String::new(),
        resolved_deps: deps,
        pkg_type: t,
        flatpak_deps: Vec::new(),
    }
}

fn graph() -> DependencyGraph {
    build_graph(vec![
        input("zeta", 10, vec![1], PackageType::Rpm),
        input("eta", 5, vec![], PackageType::Rpm),
        input("App.Flat", 30, vec![], PackageType::Flatpak),
        input("left-pad", 5, vec![], PackageType::Npm),
        input("requests", 1, vec![], PackageType::Pip),
    ])
}

#[test]
fn lists_sorted_by_each_order() {
    let g = graph();
    assert_eq!(select_packages(&g, SortBy::Name, None, None), vec![2, 1, 3, 4, 0]);
    assert_eq!(select_packages(&g, SortBy::Type, None, None), vec![2, 3, 4, 1, 0]);
    assert_eq!(select_packages(&g, SortBy::Size, None, None), vec![2, 0, 1, 3, 4]);
    assert_eq!(select_packages(&g, SortBy::Transitive, None, None), vec![2, 0, 1, 3, 4]);
    assert_eq!(select_packages(&g, SortBy::Exclusive, None, None), vec![2, 0, 1, 3, 4]);
}

#[test]
fn lists_filtered_and_limited() {
    let g = graph();
    assert_eq!(select_packages(&g, SortBy::Size, Some(2), None), vec![2, 0]);
    assert_eq!(select_packages(&g, SortBy::Size, Some(0), None), Vec::<usize>::new());
    assert_eq!(select_packages(&g, SortBy::Size, Some(99), None).len(), 5);
    assert_eq!(select_packages(&g, SortBy::Name, None, Some("ETA")), vec![1, 0]);
    assert_eq!(select_packages(&g, SortBy::Name, None, Some("")).len(), 5);
}

#[test]
fn report_helpers() {
    let g = graph();
    assert_eq!(lookup_package(&g, "eta"), Some(1));
    assert_eq!(lookup_package(&g, "nope"), None);
    assert_eq!(sorted_by_size_desc(&g, &vec![1, 4, 2, 3]), vec![2, 1, 3, 4]);
    assert_eq!(package_type_name(PackageType::Flatpak), "flatpak");
    assert_eq!(package_type_name(PackageType::Pip), "pip");
    assert_eq!(name_column_width(&g, &vec![0, 1]), 7);
    assert_eq!(name_column_width(&g, &vec![2, 3]), 8);
}
