//! The package listing and package report of the command-line interface.
use vstd::prelude::*;
use crate::graph::{DependencyGraph, PackageType};
use crate::order::{
    lex_lt, type_rank, all_indices, filter_by_name, index_range, law_sorted_same_items, lemma_all_indices_contains,
    lemma_matching_contains, matching_indices, name_matches, sort_stable, sorted_stably, Order, SortField,
};
use crate::text::{chars_of, utf8_len, utf8_len_saturating};

verus! {

/// The sort order of the package listing.
#[derive(Debug, Clone, Copy, PartialEq, Eq, Structural)]
pub enum SortBy {
    Name,
    Type,
    Size,
    Transitive,
    Exclusive,
}

/// The order a `SortBy` stands for: names and types ascending, sizes
/// descending.
pub open spec fn list_order(sort: SortBy) -> Order {
    match sort {
        SortBy::Name => Order { field: SortField::Name, ascending: true },
        SortBy::Type => Order { field: SortField::Type, ascending: true },
        SortBy::Size => Order { field: SortField::Size, ascending: false },
        SortBy::Transitive => Order { field: SortField::Transitive, ascending: false },
        SortBy::Exclusive => Order { field: SortField::Exclusive, ascending: false },
    }
}

fn list_order_of(sort: SortBy) -> (res: Order)
    ensures
        res == list_order(sort),
{
    match sort {
        SortBy::Name => Order { field: SortField::Name, ascending: true },
        SortBy::Type => Order { field: SortField::Type, ascending: true },
        SortBy::Size => Order { field: SortField::Size, ascending: false },
        SortBy::Transitive => Order { field: SortField::Transitive, ascending: false },
        SortBy::Exclusive => Order { field: SortField::Exclusive, ascending: false },
    }
}

/// The packages the listing considers: those whose names match the query,
/// or all of them without one.
pub open spec fn list_candidates(g: &DependencyGraph, search: Option<Seq<char>>) -> Seq<usize> {
    match search {
        Some(q) => matching_indices(g.packages@, q),
        None => all_indices(g.packages@.len() as int),
    }
}

/// The number of rows the listing shows out of `n`.
pub open spec fn shown_rows(n: int, limit: Option<usize>) -> int {
    match limit {
        Some(l) => if l < n {
            l as int
        } else {
            n
        },
        None => n,
    }
}

/// The view of an optional query.
pub open spec fn query_view(search: Option<&str>) -> Option<Seq<char>> {
    match search {
        Some(q) => Some(q@),
        None => None,
    }
}

/// The rows `r` come in the order the listing promises for `sort`: names
/// ascending; types ascending (by type name), names ascending within a type;
/// installed, transitive or exclusive size largest first.
pub open spec fn in_list_order(ps: Seq<crate::graph::Package>, sort: SortBy, r: Seq<usize>) -> bool {
    forall|a: int, b: int|
        0 <= a < b < r.len() ==> {
            let pa = ps[#[trigger] r[a] as int];
            let pb = ps[#[trigger] r[b] as int];
            match sort {
                SortBy::Name => !lex_lt(pb.name@, pa.name@),
                SortBy::Type => type_rank(pa.pkg_type) <= type_rank(pb.pkg_type) && (pa.pkg_type == pb.pkg_type
                    ==> !lex_lt(pb.name@, pa.name@)),
                SortBy::Size => pb.installsize <= pa.installsize,
                SortBy::Transitive => pb.transitive_size <= pa.transitive_size,
                SortBy::Exclusive => pb.exclusive_size <= pa.exclusive_size,
            }
        }
}

/// Law: a stable sort by a listing order puts the rows in the order the
/// listing promises for it (exclusive size largest first by default).
pub proof fn law_listing_order(ps: Seq<crate::graph::Package>, sort: SortBy, items: Seq<usize>, r: Seq<usize>)
    requires
        sorted_stably(ps, list_order(sort), items, r),
    ensures
        in_list_order(ps, sort, r),
{
    assert forall|a: int, b: int| 0 <= a < b < r.len() implies {
        let pa = ps[#[trigger] r[a] as int];
        let pb = ps[#[trigger] r[b] as int];
        match sort {
            SortBy::Name => !lex_lt(pb.name@, pa.name@),
            SortBy::Type => type_rank(pa.pkg_type) <= type_rank(pb.pkg_type) && (pa.pkg_type == pb.pkg_type
                ==> !lex_lt(pb.name@, pa.name@)),
            SortBy::Size => pb.installsize <= pa.installsize,
            SortBy::Transitive => pb.transitive_size <= pa.transitive_size,
            SortBy::Exclusive => pb.exclusive_size <= pa.exclusive_size,
        }
    } by {
        assert(!crate::order::key_lt(ps, list_order(sort), r[b], r[a]));
    }
}

/// The rows of the package listing: the packages matching `search`, sorted
/// stably by `sort`, at most `limit` of them.
pub fn select_packages(graph: &DependencyGraph, sort: SortBy, limit: Option<usize>, search: Option<&str>) -> (res: Vec<
    usize,
>)
    ensures
        exists|sorted: Seq<usize>|
            sorted_stably(graph.packages@, list_order(sort), list_candidates(graph, query_view(search)), sorted)
                && res@ == sorted.take(shown_rows(sorted.len() as int, limit)),
        in_list_order(graph.packages@, sort, res@),
        forall|k: int| 0 <= k < res@.len() ==> #[trigger] res@[k] < graph.packages@.len(),
{
    let candidates = match search {
        Some(q) => filter_by_name(&graph.packages, q),
        None => {
            let r = index_range(graph.packages.len());
            proof {
                assert forall|k: int| 0 <= k < r@.len() implies #[trigger] r@[k] < graph.packages@.len() by {}
            }
            r
        },
    };
    let sorted = sort_stable(&graph.packages, &candidates, list_order_of(sort));
    let n = sorted.len();
    let shown = match limit {
        Some(l) => if l < n {
            l
        } else {
            n
        },
        None => n,
    };
    let mut res: Vec<usize> = Vec::new();
    let mut k: usize = 0;
    while k < shown
        invariant
            k <= shown <= n == sorted@.len(),
            res@ == sorted@.take(k as int),
            forall|m: int| 0 <= m < sorted@.len() ==> #[trigger] sorted@[m] < graph.packages@.len(),
        decreases shown - k,
    {
        res.push(sorted[k]);
        k += 1;
        assert(res@ =~= sorted@.take(k as int));
    }
    proof {
        assert(sorted_stably(graph.packages@, list_order(sort), list_candidates(graph, query_view(search)), sorted@));
        law_listing_order(graph.packages@, sort, list_candidates(graph, query_view(search)), sorted@);
        assert forall|a: int, b: int| 0 <= a < b < res@.len() implies res@[a] == sorted@[a] && res@[b] == sorted@[b] by {}
    }
    res
}

/// Law: without a limit, the listing shows exactly the packages whose names
/// contain the search text, ignoring case (every package without a search).
pub proof fn law_listing_shows_matches(
    g: &DependencyGraph,
    sort: SortBy,
    search: Option<Seq<char>>,
    sorted: Seq<usize>,
    x: usize,
)
    requires
        sorted_stably(g.packages@, list_order(sort), list_candidates(g, search), sorted),
    ensures
        sorted.take(shown_rows(sorted.len() as int, None)).contains(x) <==> (x < g.packages@.len() && match search {
            Some(q) => name_matches(g.packages@[x as int].name@, q),
            None => true,
        }),
{
    assert(sorted.take(sorted.len() as int) =~= sorted);
    law_sorted_same_items(g.packages@, list_order(sort), list_candidates(g, search), sorted, x);
    lemma_all_indices_contains(g.packages@.len() as int, x);
    match search {
        Some(q) => lemma_matching_contains(g.packages@, q, x),
        None => {},
    }
}

/// The package indices `items` sorted stably by installed size, largest first
/// (the order of the dependency lists in a package report).
pub fn sorted_by_size_desc(graph: &DependencyGraph, items: &Vec<usize>) -> (res: Vec<usize>)
    requires
        forall|k: int| 0 <= k < items@.len() ==> #[trigger] items@[k] < graph.packages@.len(),
    ensures
        sorted_stably(graph.packages@, Order { field: SortField::Size, ascending: false }, items@, res@),
        forall|k: int| 0 <= k < res@.len() ==> #[trigger] res@[k] < graph.packages@.len(),
{
    sort_stable(&graph.packages, items, Order { field: SortField::Size, ascending: false })
}

/// The index of the package named `name`, if one is installed.
pub fn lookup_package(graph: &DependencyGraph, name: &str) -> (res: Option<usize>)
    ensures
        res == (if graph.name_to_index@.contains_key(name@) {
            Some(graph.name_to_index@[name@])
        } else {
            None
        }),
{
    match graph.name_to_index.get(name) {
        Some(i) => Some(*i),
        None => None,
    }
}

/// The name of a package type, as the listing shows it.
pub fn package_type_name(t: PackageType) -> (res: &'static str)
    ensures
        res@ == match t {
            PackageType::Rpm => "rpm"@,
            PackageType::Flatpak => "flatpak"@,
            PackageType::Npm => "npm"@,
            PackageType::Bun => "bun"@,
            PackageType::Pip => "pip"@,
        },
{
    match t {
        PackageType::Rpm => "rpm",
        PackageType::Flatpak => "flatpak",
        PackageType::Npm => "npm",
        PackageType::Bun => "bun",
        PackageType::Pip => "pip",
    }
}

/// The widest name among `rows`, in bytes, and at least the width of the
/// header `Package`.
pub open spec fn name_width(g: &DependencyGraph, rows: Seq<usize>) -> int
    decreases rows.len(),
{
    if rows.len() == 0 {
        7
    } else {
        let w = utf8_len(g.packages@[rows.last() as int].name@);
        let rest = name_width(g, rows.drop_last());
        if w > rest {
            w
        } else {
            rest
        }
    }
}

/// Law: the name column is as wide as the header `Package` (7 bytes) or the
/// longest listed name in bytes, whichever is wider.
pub proof fn law_name_width(g: &DependencyGraph, rows: Seq<usize>)
    ensures
        name_width(g, rows) >= 7,
        forall|k: int| 0 <= k < rows.len() ==> name_width(g, rows) >= utf8_len(g.packages@[#[trigger] rows[k] as int].name@),
        name_width(g, rows) == 7 || exists|k: int|
            0 <= k < rows.len() && name_width(g, rows) == utf8_len(g.packages@[#[trigger] rows[k] as int].name@),
    decreases rows.len(),
{
    if rows.len() > 0 {
        let init = rows.drop_last();
        law_name_width(g, init);
        assert forall|k: int| 0 <= k < rows.len() implies name_width(g, rows) >= utf8_len(
            g.packages@[#[trigger] rows[k] as int].name@,
        ) by {
            if k < rows.len() - 1 {
                assert(rows[k] == init[k]);
            }
        }
        if name_width(g, rows) != 7 {
            if name_width(g, rows) == name_width(g, init) {
                let k = choose|k: int|
                    0 <= k < init.len() && name_width(g, init) == utf8_len(g.packages@[#[trigger] init[k] as int].name@);
                assert(rows[k] == init[k]);
            } else {
                assert(rows[rows.len() - 1] == rows.last());
            }
        }
    }
}

/// `w`, or `usize::MAX` when `w` does not fit in a `usize`.
pub open spec fn saturated(w: int) -> int {
    if w <= usize::MAX {
        w
    } else {
        usize::MAX as int
    }
}

/// The width of the name column of the listing table (`usize::MAX` for a
/// width that does not fit in a `usize`).
pub fn name_column_width(graph: &DependencyGraph, rows: &Vec<usize>) -> (res: usize)
    requires
        forall|k: int| 0 <= k < rows@.len() ==> #[trigger] rows@[k] < graph.packages@.len(),
    ensures
        res == saturated(name_width(graph, rows@)),
{
    let mut width: usize = 7;
    let mut k: usize = 0;
    while k < rows.len()
        invariant
            k <= rows@.len(),
            forall|m: int| 0 <= m < rows@.len() ==> #[trigger] rows@[m] < graph.packages@.len(),
            width == saturated(name_width(graph, rows@.take(k as int))),
            name_width(graph, rows@.take(k as int)) >= 7,
        decreases rows.len() - k,
    {
        let name = chars_of(graph.packages[rows[k]].name.as_str());
        let w = utf8_len_saturating(&name);
        proof {
            assert(rows@.take(k + 1).drop_last() =~= rows@.take(k as int));
            assert(rows@.take(k + 1).last() == rows@[k as int]);
        }
        if w > width {
            width = w;
        }
        k += 1;
    }
    proof {
        assert(rows@.take(rows@.len() as int) =~= rows@);
    }
    width
}

} // verus!
