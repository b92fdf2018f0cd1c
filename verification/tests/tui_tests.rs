use pkglist::graph::{build_graph, DependencyGraph, PackageInput, PackageType};
use pkglist::tui::{
    detail_entries, filter_and_sort, get_sort_indicator, wrap_text, ActivePanel, Key, SortDirection,
    TuiSortColumn, TuiState,
};

fn input(name: &str, size: u64, deps: Vec<usize>) -> PackageInput {
    PackageInput {
        name: name.to_string(),
        version: "1".to_string(),
        release: "1".to_string(),
        arch: "noarch".to_string(),
        installsize: size,
        summary: String::new(),
        description: String::new(),
        resolved_deps: deps,
        pkg_type: PackageType::Rpm,
        flatpak_deps: Vec::new(),
    }
}

// alpha -> beta, gamma; beta -> delta; gamma -> delta; Epsilon -> delta
fn graph() -> DependencyGraph {
    build_graph(vec![
        input("alpha", 10, vec![1, 2]),
        input("beta", 5, vec![3]),
        input("gamma", 3, vec![3]),
        input("delta", 7, vec![]),
        input("Epsilon", 2, vec![3]),
    ])
}

#[test]
fn sorts_by_column_and_direction() {
    let g = graph();
    // exclusive: alpha 18, beta 5, gamma 3, delta 7, Epsilon 2
    assert_eq!(filter_and_sort(&g, "", TuiSortColumn::Exclusive, SortDirection::Descending), vec![0, 3, 1, 2, 4]);
    assert_eq!(filter_and_sort(&g, "", TuiSortColumn::Exclusive, SortDirection::Ascending), vec![4, 2, 1, 3, 0]);
    // Names compare by code point: uppercase before lowercase.
    assert_eq!(filter_and_sort(&g, "", TuiSortColumn::Name, SortDirection::Ascending), vec![4, 0, 1, 3, 2]);
    assert_eq!(filter_and_sort(&g, "", TuiSortColumn::Size, SortDirection::Descending), vec![0, 3, 1, 2, 4]);
    assert_eq!(filter_and_sort(&g, "", TuiSortColumn::Transitive, SortDirection::Descending), vec![0, 1, 2, 4, 3]);
}

#[test]
fn ties_keep_index_order_in_both_directions() {
    let g = build_graph(vec![input("a", 1, vec![]), input("b", 1, vec![]), input("c", 2, vec![])]);
    assert_eq!(filter_and_sort(&g, "", TuiSortColumn::Size, SortDirection::Ascending), vec![0, 1, 2]);
    assert_eq!(filter_and_sort(&g, "", TuiSortColumn::Size, SortDirection::Descending), vec![2, 0, 1]);
}

#[test]
fn filters_case_insensitively() {
    let g = graph();
    assert_eq!(filter_and_sort(&g, "EPS", TuiSortColumn::Name, SortDirection::Ascending), vec![4]);
    assert_eq!(filter_and_sort(&g, "ta", TuiSortColumn::Name, SortDirection::Ascending), vec![1, 3]);
    assert!(filter_and_sort(&g, "zzz", TuiSortColumn::Name, SortDirection::Ascending).is_empty());
}

#[test]
fn sort_indicator() {
    assert_eq!(get_sort_indicator(TuiSortColumn::Name, TuiSortColumn::Name, SortDirection::Ascending), "▲");
    assert_eq!(get_sort_indicator(TuiSortColumn::Size, TuiSortColumn::Size, SortDirection::Descending), "▼");
    assert_eq!(get_sort_indicator(TuiSortColumn::Name, TuiSortColumn::Size, SortDirection::Ascending), "");
}

#[test]
fn wraps_words_greedily() {
    assert_eq!(wrap_text("hello world foo", 11), vec!["hello world", "foo"]);
    assert_eq!(wrap_text("a\n\nb", 10), vec!["a", "", "b"]);
    assert_eq!(wrap_text("supercalifragilistic is long", 5), vec!["supercalifragilistic", "is", "long"]);
    assert_eq!(wrap_text("", 5), vec![""]);
    assert_eq!(wrap_text("   \t ", 5), Vec::<String>::new());
    assert_eq!(wrap_text("x  y", 3), vec!["x y"]);
    // Widths count bytes: "é" takes two.
    assert_eq!(wrap_text("é é", 3), vec!["é", "é"]);
    assert_eq!(wrap_text("é é", 5), vec!["é é"]);
}

#[test]
fn starts_sorted_by_exclusive_size() {
    let g = graph();
    let s = TuiState::new(&g);
    assert_eq!(s.filtered_indices, vec![0, 3, 1, 2, 4]);
    assert_eq!(s.selected, Some(0));
    assert_eq!(s.sort_column, TuiSortColumn::Exclusive);
    assert_eq!(s.sort_direction, SortDirection::Descending);
    assert!(!s.search_mode);
}

#[test]
fn navigation_wraps_and_pages() {
    let g = graph();
    let mut s = TuiState::new(&g);
    s.handle_key(&g, Key::Up, false);
    assert_eq!(s.selected, Some(4));
    s.handle_key(&g, Key::Down, false);
    assert_eq!(s.selected, Some(0));
    s.handle_key(&g, Key::Char('s'), false);
    assert_eq!(s.selected, Some(1));
    s.handle_key(&g, Key::PageDown, false);
    assert_eq!(s.selected, Some(4));
    s.handle_key(&g, Key::PageUp, false);
    assert_eq!(s.selected, Some(0));
    s.handle_key(&g, Key::End, false);
    assert_eq!(s.selected, Some(4));
    s.handle_key(&g, Key::Home, false);
    assert_eq!(s.selected, Some(0));
}

#[test]
fn search_mode_edits_query_and_keeps_selection() {
    let g = graph();
    let mut s = TuiState::new(&g);
    s.handle_key(&g, Key::Down, false); // delta selected
    assert_eq!(s.selected, Some(1));
    s.handle_key(&g, Key::Char('f'), false);
    assert!(s.search_mode);
    s.handle_key(&g, Key::Char('t'), false);
    s.handle_key(&g, Key::Char('a'), false);
    assert_eq!(s.search_query, "ta");
    assert_eq!(s.filtered_indices, vec![3, 1]);
    assert_eq!(s.selected, Some(0)); // delta is still selected
    s.handle_key(&g, Key::Backspace, false);
    assert_eq!(s.search_query, "t");
    s.handle_key(&g, Key::Enter, false);
    assert!(!s.search_mode);
    assert_eq!(s.search_query, "t");
    s.handle_key(&g, Key::Esc, false);
    assert_eq!(s.search_query, "");
    assert_eq!(s.filtered_indices.len(), 5);
}

#[test]
fn sort_keys_toggle_direction() {
    let g = graph();
    let mut s = TuiState::new(&g);
    s.handle_key(&g, Key::Char('1'), false);
    assert_eq!(s.sort_column, TuiSortColumn::Name);
    assert_eq!(s.sort_direction, SortDirection::Ascending);
    assert_eq!(s.filtered_indices, vec![4, 0, 1, 3, 2]);
    assert_eq!(s.selected, Some(1)); // alpha stays selected
    s.handle_key(&g, Key::Char('1'), false);
    assert_eq!(s.sort_direction, SortDirection::Descending);
    assert_eq!(s.filtered_indices, vec![2, 3, 1, 0, 4]);
    s.handle_key(&g, Key::Char('1'), false);
    assert_eq!(s.sort_direction, SortDirection::Ascending);
    assert_eq!(s.filtered_indices, vec![4, 0, 1, 3, 2]);
    s.handle_key(&g, Key::Char('2'), false);
    assert_eq!(s.sort_column, TuiSortColumn::Type);
    assert_eq!(s.sort_direction, SortDirection::Ascending);
    s.handle_key(&g, Key::Char('3'), false);
    assert_eq!(s.sort_column, TuiSortColumn::Size);
    assert_eq!(s.sort_direction, SortDirection::Descending);
    assert_eq!(s.filtered_indices, vec![0, 3, 1, 2, 4]);
    s.handle_key(&g, Key::Char('4'), false);
    assert_eq!(s.sort_column, TuiSortColumn::Transitive);
    assert_eq!(s.sort_direction, SortDirection::Descending);
    s.handle_key(&g, Key::Char('5'), false);
    assert_eq!(s.sort_column, TuiSortColumn::Exclusive);
    assert_eq!(s.sort_direction, SortDirection::Descending);
    s.handle_key(&g, Key::Char('5'), false);
    assert_eq!(s.sort_direction, SortDirection::Ascending);
}

#[test]
fn type_column_sorts_by_type_then_name() {
    let mut inputs = vec![input("zeta", 1, vec![]), input("alpha", 2, vec![]), input("beta", 3, vec![])];
    inputs[0].pkg_type = PackageType::Rpm;
    inputs[1].pkg_type = PackageType::Flatpak;
    inputs[2].pkg_type = PackageType::Rpm;
    let g = build_graph(inputs);
    assert_eq!(filter_and_sort(&g, "", TuiSortColumn::Type, SortDirection::Ascending), vec![1, 2, 0]);
    assert_eq!(filter_and_sort(&g, "", TuiSortColumn::Type, SortDirection::Descending), vec![0, 2, 1]);
}

#[test]
fn quit_keys() {
    let g = graph();
    let mut s = TuiState::new(&g);
    s.handle_key(&g, Key::Char('c'), false);
    assert!(!s.should_quit);
    s.handle_key(&g, Key::Char('c'), true);
    assert!(s.should_quit);
    let mut t = TuiState::new(&g);
    t.handle_key(&g, Key::Char('q'), false);
    assert!(t.should_quit);
}

#[test]
fn details_cursor_and_jump() {
    let g = graph();
    let mut s = TuiState::new(&g);
    // alpha: dependencies beta (5), gamma (3); no dependents
    assert_eq!(detail_entries(&g, 0), vec![1, 2]);
    // delta: no dependencies; dependents beta (5), gamma (3), Epsilon (2)
    assert_eq!(detail_entries(&g, 3), vec![1, 2, 4]);
    s.handle_key(&g, Key::Tab, false);
    assert_eq!(s.active_panel, ActivePanel::Details);
    s.handle_key(&g, Key::Down, false);
    assert_eq!(s.selected_dep_idx, 1);
    s.handle_key(&g, Key::Down, false);
    assert_eq!(s.selected_dep_idx, 0);
    s.handle_key(&g, Key::Up, false);
    assert_eq!(s.selected_dep_idx, 1);
    s.handle_key(&g, Key::Enter, false);
    // gamma is row 3 of [alpha, delta, beta, gamma, Epsilon]
    assert_eq!(s.selected, Some(3));
    assert_eq!(s.active_panel, ActivePanel::Table);
    assert_eq!(s.selected_dep_idx, 0);
}

#[test]
fn jump_clears_a_query_that_hides_the_target() {
    let g = graph();
    let mut s = TuiState::new(&g);
    s.handle_key(&g, Key::Char('f'), false);
    s.handle_key(&g, Key::Char('a'), false);
    s.handle_key(&g, Key::Char('l'), false);
    s.handle_key(&g, Key::Enter, false);
    assert_eq!(s.filtered_indices, vec![0]);
    s.handle_key(&g, Key::Right, false);
    s.handle_key(&g, Key::Enter, false);
    assert_eq!(s.search_query, "");
    assert_eq!(s.filtered_indices, vec![0, 3, 1, 2, 4]);
    assert_eq!(s.selected, Some(2)); // beta
    assert_eq!(s.active_panel, ActivePanel::Table);
}

#[test]
fn details_scroll_keys_and_clamps() {
    let g = graph();
    let mut s = TuiState::new(&g);
    s.handle_key(&g, Key::Char('d'), false);
    s.handle_key(&g, Key::PageDown, false);
    assert_eq!(s.details_scroll, 10);
    s.handle_key(&g, Key::PageUp, false);
    s.handle_key(&g, Key::PageUp, false);
    assert_eq!(s.details_scroll, 0);
    s.handle_key(&g, Key::End, false);
    assert_eq!(s.details_scroll, usize::MAX);
    s.clamp_details_scroll(30, 12);
    assert_eq!(s.details_scroll, 20);
    s.handle_key(&g, Key::Home, false);
    assert_eq!(s.details_scroll, 0);
    s.selected_dep_idx = 9;
    s.clamp_detail_cursor(&g);
    assert_eq!(s.selected_dep_idx, 1);
}

#[test]
fn empty_table_ignores_moves() {
    let g = graph();
    let mut s = TuiState::new(&g);
    s.handle_key(&g, Key::Char('f'), false);
    s.handle_key(&g, Key::Char('z'), false);
    assert!(s.filtered_indices.is_empty());
    assert_eq!(s.selected, None);
    s.handle_key(&g, Key::Enter, false);
    s.handle_key(&g, Key::Down, false);
    assert_eq!(s.selected, None);
    assert_eq!(s.selected_package(), None);
}
