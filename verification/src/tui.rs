//! The logic of the interactive package browser: filtering, sorting, text
//! wrapping and the state machine that key presses drive.
use vstd::prelude::*;
use vstd::string::StringExecFns;
use crate::graph::DependencyGraph;
use crate::order::{
    key_lt, lex_lt, type_rank, all_indices, filter_by_name, index_range, law_sorted_same_items, lemma_all_indices_contains,
    lemma_matching_contains, matching_indices, name_matches, sort_stable, sorted_stably, Order, SortField,
};
use crate::text::{
    chars_of, split_chars, split_on, string_of, utf8_len, utf8_len_char, utf8_len_saturating, words,
    words_of,
};

verus! {

/// The column the package table is sorted by.
#[derive(Debug, Clone, Copy, PartialEq, Eq, Structural)]
pub enum TuiSortColumn {
    Name,
    Type,
    Size,
    Transitive,
    Exclusive,
}

/// The direction of the table's sort.
#[derive(Debug, Clone, Copy, PartialEq, Eq, Structural)]
pub enum SortDirection {
    Ascending,
    Descending,
}

/// The panel that has the focus.
#[derive(Debug, Clone, Copy, PartialEq, Eq, Structural)]
pub enum ActivePanel {
    Table,
    Details,
}

/// The package order that a table column and direction stand for.
pub open spec fn tui_order(col: TuiSortColumn, dir: SortDirection) -> Order {
    Order {
        field: match col {
            TuiSortColumn::Name => SortField::Name,
            TuiSortColumn::Type => SortField::Type,
            TuiSortColumn::Size => SortField::Size,
            TuiSortColumn::Transitive => SortField::Transitive,
            TuiSortColumn::Exclusive => SortField::Exclusive,
        },
        ascending: dir == SortDirection::Ascending,
    }
}

fn order_of(col: TuiSortColumn, dir: SortDirection) -> (res: Order)
    ensures
        res == tui_order(col, dir),
{
    let field = match col {
        TuiSortColumn::Name => SortField::Name,
        TuiSortColumn::Type => SortField::Type,
        TuiSortColumn::Size => SortField::Size,
        TuiSortColumn::Transitive => SortField::Transitive,
        TuiSortColumn::Exclusive => SortField::Exclusive,
    };
    let ascending = match dir {
        SortDirection::Ascending => true,
        SortDirection::Descending => false,
    };
    Order { field, ascending }
}

/// The packages the table lists for `search`: all of them when it is empty,
/// else those whose names match it.
pub open spec fn table_candidates(g: &DependencyGraph, search: Seq<char>) -> Seq<usize> {
    if search.len() == 0 {
        all_indices(g.packages@.len() as int)
    } else {
        matching_indices(g.packages@, search)
    }
}

/// The rows `r` come in the order of column `col`: for every two rows, the
/// later one does not come before the earlier one by that column's key
/// (names; type names, then names; installed, transitive or exclusive size),
/// the key compared the other way round in descending direction.
pub open spec fn in_table_order(
    ps: Seq<crate::graph::Package>,
    col: TuiSortColumn,
    dir: SortDirection,
    r: Seq<usize>,
) -> bool {
    forall|a: int, b: int|
        0 <= a < b < r.len() ==> {
            let first = ps[#[trigger] r[a] as int];
            let second = ps[#[trigger] r[b] as int];
            let lo = if dir == SortDirection::Ascending { first } else { second };
            let hi = if dir == SortDirection::Ascending { second } else { first };
            match col {
                TuiSortColumn::Name => !lex_lt(hi.name@, lo.name@),
                TuiSortColumn::Type => type_rank(lo.pkg_type) <= type_rank(hi.pkg_type) && (lo.pkg_type
                    == hi.pkg_type ==> !lex_lt(hi.name@, lo.name@)),
                TuiSortColumn::Size => lo.installsize <= hi.installsize,
                TuiSortColumn::Transitive => lo.transitive_size <= hi.transitive_size,
                TuiSortColumn::Exclusive => lo.exclusive_size <= hi.exclusive_size,
            }
        }
}

/// Law: a stable sort by a table column and direction puts the rows in that
/// column's order.
pub proof fn law_table_order(
    ps: Seq<crate::graph::Package>,
    col: TuiSortColumn,
    dir: SortDirection,
    items: Seq<usize>,
    r: Seq<usize>,
)
    requires
        sorted_stably(ps, tui_order(col, dir), items, r),
    ensures
        in_table_order(ps, col, dir, r),
{
    assert forall|a: int, b: int| 0 <= a < b < r.len() implies {
        let first = ps[#[trigger] r[a] as int];
        let second = ps[#[trigger] r[b] as int];
        let lo = if dir == SortDirection::Ascending { first } else { second };
        let hi = if dir == SortDirection::Ascending { second } else { first };
        match col {
            TuiSortColumn::Name => !lex_lt(hi.name@, lo.name@),
            TuiSortColumn::Type => type_rank(lo.pkg_type) <= type_rank(hi.pkg_type) && (lo.pkg_type
                == hi.pkg_type ==> !lex_lt(hi.name@, lo.name@)),
            TuiSortColumn::Size => lo.installsize <= hi.installsize,
            TuiSortColumn::Transitive => lo.transitive_size <= hi.transitive_size,
            TuiSortColumn::Exclusive => lo.exclusive_size <= hi.exclusive_size,
        }
    } by {
        assert(!key_lt(ps, tui_order(col, dir), r[b], r[a]));
    }
}

/// The table rows: the packages matching `search`, sorted stably by the
/// column and direction.
pub fn filter_and_sort(
    graph: &DependencyGraph,
    search: &str,
    sort_col: TuiSortColumn,
    sort_dir: SortDirection,
) -> (res: Vec<usize>)
    ensures
        sorted_stably(graph.packages@, tui_order(sort_col, sort_dir), table_candidates(graph, search@), res@),
        in_table_order(graph.packages@, sort_col, sort_dir, res@),
        forall|k: int| 0 <= k < res@.len() ==> #[trigger] res@[k] < graph.packages@.len(),
{
    let indices = if search.unicode_len() == 0 {
        let r = index_range(graph.packages.len());
        proof {
            assert forall|k: int| 0 <= k < r@.len() implies #[trigger] r@[k] < graph.packages@.len() by {}
        }
        r
    } else {
        filter_by_name(&graph.packages, search)
    };
    let res = sort_stable(&graph.packages, &indices, order_of(sort_col, sort_dir));
    proof {
        law_table_order(graph.packages@, sort_col, sort_dir, table_candidates(graph, search@), res@);
    }
    res
}

/// Law: the table lists exactly the packages whose names contain the query,
/// ignoring case, and every package while the query is empty.
pub proof fn law_table_lists_matches(
    g: &DependencyGraph,
    query: Seq<char>,
    col: TuiSortColumn,
    dir: SortDirection,
    rows: Seq<usize>,
    x: usize,
)
    requires
        sorted_stably(g.packages@, tui_order(col, dir), table_candidates(g, query), rows),
    ensures
        rows.contains(x) <==> (x < g.packages@.len() && (query.len() == 0 || name_matches(
            g.packages@[x as int].name@,
            query,
        ))),
{
    law_sorted_same_items(g.packages@, tui_order(col, dir), table_candidates(g, query), rows, x);
    lemma_all_indices_contains(g.packages@.len() as int, x);
    lemma_matching_contains(g.packages@, query, x);
}

/// Law: choosing the sorted column a second time restores the direction
/// it had before the first choice.
pub proof fn law_sort_toggle_restores(cur: TuiSortColumn, dir: SortDirection)
    ensures
        ({
            let (c1, d1) = sort_choice(cur, dir, cur);
            sort_choice(c1, d1, cur)
        }) == (cur, dir),
{
}

/// The arrow that marks the sorted column in the table header.
pub fn get_sort_indicator(col: TuiSortColumn, active: TuiSortColumn, dir: SortDirection) -> (res: &'static str)
    ensures
        res@ == if col == active {
            if dir == SortDirection::Ascending {
                "▲"@
            } else {
                "▼"@
            }
        } else {
            ""@
        },
{
    if col == active {
        match dir {
            SortDirection::Ascending => "▲",
            SortDirection::Descending => "▼",
        }
    } else {
        ""
    }
}

// ---------------------------------------------------------------------------
// Text wrapping
// ---------------------------------------------------------------------------

/// The greedy wrap of `ws` into lines of at most `max` bytes: the finished
/// lines and the line being filled. A word goes on the current line,
/// separated by a space, when the result fits; otherwise it starts a new line.
pub open spec fn wrap_words(ws: Seq<Seq<char>>, max: int) -> (Seq<Seq<char>>, Seq<char>)
    decreases ws.len(),
{
    if ws.len() == 0 {
        (seq![], seq![])
    } else {
        let (done, cur) = wrap_words(ws.drop_last(), max);
        let w = ws.last();
        if cur.len() == 0 {
            (done, w)
        } else if utf8_len(cur) + 1 + utf8_len(w) <= max {
            (done, cur.push(' ') + w)
        } else {
            (done.push(cur), w)
        }
    }
}

/// Law: greedy wrapping keeps every line within `max` bytes, except a line
/// that is a single word too long to fit.
pub proof fn law_wrap_lines_fit(ws: Seq<Seq<char>>, max: int)
    ensures
        ({
            let (done, cur) = wrap_words(ws, max);
            &&& forall|k: int|
                0 <= k < done.len() ==> utf8_len(#[trigger] done[k]) <= max || ws.contains(done[k])
            &&& utf8_len(cur) <= max || ws.contains(cur) || cur.len() == 0
        }),
    decreases ws.len(),
{
    if ws.len() > 0 {
        let init = ws.drop_last();
        law_wrap_lines_fit(init, max);
        let (done0, cur0) = wrap_words(init, max);
        assert forall|x: Seq<char>| init.contains(x) implies ws.contains(x) by {
            let i = choose|i: int| 0 <= i < init.len() && init[i] == x;
            assert(ws[i] == x);
        }
        assert(ws[ws.len() - 1] == ws.last());
        lemma_utf8_len_append(cur0, ' ', ws.last());
        let (done, cur) = wrap_words(ws, max);
        assert forall|k: int| 0 <= k < done.len() implies utf8_len(#[trigger] done[k]) <= max || ws.contains(done[k]) by {
            if k < done0.len() {
                assert(done[k] == done0[k]);
            }
        }
    }
}

/// Law: two words share a line exactly when the first, a space and the
/// second together take at most `max` bytes; otherwise the second starts a
/// new line.
pub proof fn law_wrap_two_words(w1: Seq<char>, w2: Seq<char>, max: int)
    requires
        w1.len() > 0,
    ensures
        wrap_words(seq![w1, w2], max) == if utf8_len(w1) + 1 + utf8_len(w2) <= max {
            (Seq::<Seq<char>>::empty(), w1 + seq![' '] + w2)
        } else {
            (seq![w1], w2)
        },
{
    let ws = seq![w1, w2];
    assert(ws.drop_last() =~= seq![w1]);
    assert(seq![w1].drop_last() =~= Seq::<Seq<char>>::empty());
    assert(wrap_words(Seq::<Seq<char>>::empty(), max) == (Seq::<Seq<char>>::empty(), Seq::<char>::empty()));
    assert(wrap_words(seq![w1], max) == (Seq::<Seq<char>>::empty(), w1));
    assert(ws.last() == w2);
    assert(w1.push(' ') + w2 =~= w1 + seq![' '] + w2);
    assert(Seq::<Seq<char>>::empty().push(w1) =~= seq![w1]);
}

/// The wrapped lines of one paragraph: one empty line for an empty paragraph.
pub open spec fn wrap_paragraph(p: Seq<char>, max: int) -> Seq<Seq<char>> {
    if p.len() == 0 {
        seq![seq![]]
    } else {
        let (done, cur) = wrap_words(words_of(p), max);
        if cur.len() > 0 {
            done.push(cur)
        } else {
            done
        }
    }
}

/// The wrapped lines of the paragraphs `ps`, in order.
pub open spec fn wrap_paragraphs(ps: Seq<Seq<char>>, max: int) -> Seq<Seq<char>>
    decreases ps.len(),
{
    if ps.len() == 0 {
        seq![]
    } else {
        wrap_paragraphs(ps.drop_last(), max) + wrap_paragraph(ps.last(), max)
    }
}

/// The lines `wrap_text` gives: each `\n`-separated paragraph wrapped greedily.
pub open spec fn wrapped(text: Seq<char>, max: int) -> Seq<Seq<char>> {
    wrap_paragraphs(split_on(text, '\n'), max)
}

/// The character sequences of a list of strings.
pub open spec fn string_views(v: Seq<String>) -> Seq<Seq<char>> {
    v.map_values(|s: String| s@)
}

/// Wraps one non-empty paragraph.
fn wrap_one(p: &Vec<char>, max_width: usize) -> (res: Vec<Vec<char>>)
    requires
        p@.len() > 0,
    ensures
        res@.map_values(|l: Vec<char>| l@) == wrap_paragraph(p@, max_width as int),
{
    let ws = words(p);
    let ghost wv = ws@.map_values(|l: Vec<char>| l@);
    let mut lines: Vec<Vec<char>> = Vec::new();
    let mut current: Vec<char> = Vec::new();
    let mut cur_len: usize = 0;
    let mut k: usize = 0;
    proof {
        assert(wv.take(0) =~= Seq::<Seq<char>>::empty());
        assert(lines@.map_values(|l: Vec<char>| l@) =~= Seq::<Seq<char>>::empty());
    }
    while k < ws.len()
        invariant
            k <= ws@.len(),
            wv == ws@.map_values(|l: Vec<char>| l@),
            wv == words_of(p@),
            (lines@.map_values(|l: Vec<char>| l@), current@) == wrap_words(wv.take(k as int), max_width as int),
            cur_len == if utf8_len(current@) <= usize::MAX {
                utf8_len(current@)
            } else {
                usize::MAX as int
            },
        decreases ws.len() - k,
    {
        let w = &ws[k];
        let w_len = utf8_len_saturating(w);
        proof {
            assert(wv.take(k + 1).drop_last() =~= wv.take(k as int));
            assert(wv.take(k + 1).last() == w@);
            lemma_utf8_len_nonneg(current@);
            lemma_utf8_len_nonneg(w@);
        }
        if current.len() == 0 {
            current = slice_all(w);
            cur_len = w_len;
        } else if cur_len < max_width && w_len <= max_width - cur_len - 1 {
            let ghost old_cur = current@;
            current.push(' ');
            let mut j: usize = 0;
            let ghost base = current@;
            while j < w.len()
                invariant
                    j <= w@.len(),
                    current@ == base + w@.take(j as int),
                decreases w.len() - j,
            {
                current.push(w[j]);
                j += 1;
                assert(current@ =~= base + w@.take(j as int));
            }
            proof {
                assert(w@.take(w@.len() as int) =~= w@);
                lemma_utf8_len_append(old_cur, ' ', w@);
                assert(old_cur.push(' ') + w@ =~= current@);
                assert(utf8_len_char(' ') == 1);
                assert(utf8_len(old_cur) == cur_len);
                assert(utf8_len(w@) == w_len);
            }
            cur_len = cur_len + 1 + w_len;
        } else {
            let ghost old_lines = lines@;
            let mut finished = slice_all(w);
            std::mem::swap(&mut finished, &mut current);
            lines.push(finished);
            cur_len = w_len;
            proof {
                assert(lines@.map_values(|l: Vec<char>| l@) =~= old_lines.map_values(|l: Vec<char>| l@).push(
                    finished@,
                ));
            }
        }
        k += 1;
    }
    proof {
        assert(wv.take(ws@.len() as int) =~= wv);
    }
    if current.len() > 0 {
        let ghost old_lines = lines@;
        lines.push(current);
        proof {
            assert(lines@.map_values(|l: Vec<char>| l@) =~= old_lines.map_values(|l: Vec<char>| l@).push(
                current@,
            ));
        }
    }
    lines
}

proof fn lemma_utf8_len_nonneg(s: Seq<char>)
    ensures
        utf8_len(s) >= 0,
    decreases s.len(),
{
    if s.len() > 0 {
        lemma_utf8_len_nonneg(s.drop_last());
    }
}

proof fn lemma_utf8_len_append(a: Seq<char>, c: char, w: Seq<char>)
    ensures
        utf8_len(a.push(c) + w) == utf8_len(a) + utf8_len_char(c) + utf8_len(w),
    decreases w.len(),
{
    if w.len() == 0 {
        assert(a.push(c) + w =~= a.push(c));
        assert(a.push(c).drop_last() =~= a);
    } else {
        lemma_utf8_len_append(a, c, w.drop_last());
        assert((a.push(c) + w).drop_last() =~= a.push(c) + w.drop_last());
    }
}

/// A copy of `v`.
fn slice_all(v: &Vec<char>) -> (res: Vec<char>)
    ensures
        res@ == v@,
{
    let r = crate::text::slice_of(v, 0, v.len());
    assert(v@.subrange(0, v@.len() as int) =~= v@);
    r
}

/// Wraps `text` into lines of at most `max_width` bytes: each `\n`-separated
/// paragraph greedily, words separated by single spaces, an empty paragraph
/// kept as an empty line. A word longer than `max_width` stands alone.
pub fn wrap_text(text: &str, max_width: usize) -> (res: Vec<String>)
    ensures
        string_views(res@) == wrapped(text@, max_width as int),
{
    let t = chars_of(text);
    let paragraphs = split_chars(&t, '\n');
    let ghost pv = paragraphs@.map_values(|l: Vec<char>| l@);
    let mut lines: Vec<String> = Vec::new();
    let mut i: usize = 0;
    proof {
        assert(pv.take(0) =~= Seq::<Seq<char>>::empty());
        assert(string_views(lines@) =~= Seq::<Seq<char>>::empty());
    }
    while i < paragraphs.len()
        invariant
            i <= paragraphs@.len(),
            pv == paragraphs@.map_values(|l: Vec<char>| l@),
            pv == split_on(t@, '\n'),
            t@ == text@,
            string_views(lines@) == wrap_paragraphs(pv.take(i as int), max_width as int),
        decreases paragraphs.len() - i,
    {
        let p = &paragraphs[i];
        let ghost before = lines@;
        proof {
            assert(pv.take(i + 1).drop_last() =~= pv.take(i as int));
            assert(pv.take(i + 1).last() == p@);
        }
        if p.len() == 0 {
            lines.push(String::new());
            proof {
                assert(string_views(lines@) =~= string_views(before) + seq![Seq::<char>::empty()]);
            }
        } else {
            let wl = wrap_one(p, max_width);
            let mut j: usize = 0;
            while j < wl.len()
                invariant
                    j <= wl@.len(),
                    string_views(lines@) == string_views(before) + wl@.map_values(|l: Vec<char>| l@).take(j as int),
                decreases wl.len() - j,
            {
                let ghost mid = lines@;
                lines.push(string_of(wl[j].as_slice()));
                proof {
                    assert(string_views(lines@) =~= string_views(mid).push(wl@[j as int]@));
                    assert(wl@.map_values(|l: Vec<char>| l@).take(j + 1) =~= wl@.map_values(|l: Vec<char>| l@).take(
                        j as int,
                    ).push(wl@[j as int]@));
                }
                j += 1;
            }
            proof {
                assert(wl@.map_values(|l: Vec<char>| l@).take(wl@.len() as int) =~= wl@.map_values(
                    |l: Vec<char>| l@,
                ));
            }
        }
        i += 1;
    }
    proof {
        assert(pv.take(paragraphs@.len() as int) =~= pv);
    }
    lines
}

// ---------------------------------------------------------------------------
// Browser state
// ---------------------------------------------------------------------------

/// A key press, as the browser sees it.
#[derive(Debug, Clone, Copy, PartialEq, Eq, Structural)]
pub enum Key {
    Char(char),
    Enter,
    Tab,
    Esc,
    Backspace,
    Up,
    Down,
    Left,
    Right,
    PageUp,
    PageDown,
    Home,
    End,
    Other,
}

/// The state of the package browser.
pub struct TuiState {
    /// The table rows: package indices.
    pub filtered_indices: Vec<usize>,
    /// The selected row, if any.
    pub selected: Option<usize>,
    pub search_query: String,
    pub search_mode: bool,
    pub sort_column: TuiSortColumn,
    pub sort_direction: SortDirection,
    pub active_panel: ActivePanel,
    pub details_scroll: usize,
    /// The cursor in the details panel's list of dependencies and dependents.
    pub selected_dep_idx: usize,
    pub should_quit: bool,
}

/// The number of rows a page key moves.
pub const PAGE_ROWS: usize = 15;

/// The number of lines a page key scrolls the details panel.
pub const PAGE_LINES: usize = 10;

/// The first position `k` at which package `ps[rows[k]]` is named `name`,
/// or `rows.len()`.
pub open spec fn position_by_name(ps: Seq<crate::graph::Package>, rows: Seq<usize>, name: Seq<char>) -> int
    decreases rows.len(),
{
    if rows.len() == 0 {
        0
    } else if ps[rows[0] as int].name@ == name {
        0
    } else {
        1 + position_by_name(ps, rows.drop_first(), name)
    }
}

/// The first position of `x` in `rows`, or `rows.len()`.
pub open spec fn position_of(rows: Seq<usize>, x: usize) -> int
    decreases rows.len(),
{
    if rows.len() == 0 {
        0
    } else if rows[0] == x {
        0
    } else {
        1 + position_of(rows.drop_first(), x)
    }
}

/// The package on the selected row, if the selection is a row.
pub open spec fn selected_package_of(rows: Seq<usize>, sel: Option<usize>) -> Option<usize> {
    match sel {
        Some(i) => if i < rows.len() {
            Some(rows[i as int])
        } else {
            None
        },
        None => None,
    }
}

/// The selection after the rows change from `rows` to `new_rows`: the first
/// row with the name of the previously selected package, else the first row.
pub open spec fn reselected(
    ps: Seq<crate::graph::Package>,
    rows: Seq<usize>,
    sel: Option<usize>,
    new_rows: Seq<usize>,
) -> Option<usize> {
    let first = if new_rows.len() > 0 {
        Some(0usize)
    } else {
        None
    };
    match selected_package_of(rows, sel) {
        Some(p) => {
            let k = position_by_name(ps, new_rows, ps[p as int].name@);
            if k < new_rows.len() {
                Some(k as usize)
            } else {
                first
            }
        },
        None => first,
    }
}

/// `post`'s rows, selection, scroll and cursor are what refreshing the table
/// gives, from the rows `rows` and selection `sel`, for `query`, `col`, `dir`.
pub open spec fn refiltered(
    g: &DependencyGraph,
    rows: Seq<usize>,
    sel: Option<usize>,
    query: Seq<char>,
    col: TuiSortColumn,
    dir: SortDirection,
    post: TuiState,
) -> bool {
    &&& sorted_stably(g.packages@, tui_order(col, dir), table_candidates(g, query), post.filtered_indices@)
    &&& post.selected == reselected(g.packages@, rows, sel, post.filtered_indices@)
    &&& post.details_scroll == 0
    &&& post.selected_dep_idx == 0
}

/// `a` and `b` agree on the search mode, sort, focus and quit flag.
pub open spec fn same_settings(a: TuiState, b: TuiState) -> bool {
    &&& a.search_mode == b.search_mode
    &&& a.sort_column == b.sort_column
    &&& a.sort_direction == b.sort_direction
    &&& a.active_panel == b.active_panel
    &&& a.should_quit == b.should_quit
}

/// The selection after moving down one row (wrapping to the top).
pub open spec fn next_row(len: int, sel: Option<usize>) -> usize {
    match sel {
        Some(i) => if i >= len - 1 {
            0
        } else {
            (i + 1) as usize
        },
        None => 0,
    }
}

/// The selection after moving up one row (wrapping to the bottom).
pub open spec fn prev_row(len: int, sel: Option<usize>) -> usize {
    match sel {
        Some(i) => if i == 0 {
            (len - 1) as usize
        } else {
            (i - 1) as usize
        },
        None => 0,
    }
}

/// The selection after moving down a page (stopping at the last row).
pub open spec fn page_down_row(len: int, sel: Option<usize>) -> usize {
    match sel {
        Some(i) => if i + PAGE_ROWS >= len {
            (len - 1) as usize
        } else {
            (i + PAGE_ROWS) as usize
        },
        None => 0,
    }
}

/// The selection after moving up a page (stopping at the first row).
pub open spec fn page_up_row(sel: Option<usize>) -> usize {
    match sel {
        Some(i) => if i < PAGE_ROWS {
            0
        } else {
            (i - PAGE_ROWS) as usize
        },
        None => 0,
    }
}

/// `post` is `pre` with row `row` selected and the details panel reset.
pub open spec fn moved_to(pre: TuiState, row: usize, post: TuiState) -> bool {
    post == TuiState { selected: Some(row), details_scroll: 0, selected_dep_idx: 0, ..pre }
}

/// The sort column and direction after choosing column `col`: the same
/// column flips the direction; another column starts ascending for names and
/// types and descending for sizes.
pub open spec fn sort_choice(cur: TuiSortColumn, dir: SortDirection, col: TuiSortColumn) -> (TuiSortColumn, SortDirection) {
    if cur == col {
        (col, if dir == SortDirection::Ascending {
            SortDirection::Descending
        } else {
            SortDirection::Ascending
        })
    } else {
        (col, if col == TuiSortColumn::Name || col == TuiSortColumn::Type {
            SortDirection::Ascending
        } else {
            SortDirection::Descending
        })
    }
}

/// The order of the details panel's lists: by installed size, largest first.
pub open spec fn by_size_desc() -> Order {
    Order { field: SortField::Size, ascending: false }
}

/// `entries` is the details panel's list for package `p`: its dependencies,
/// then its dependents, each sorted stably by size, largest first.
pub open spec fn detail_list(ps: Seq<crate::graph::Package>, p: usize, entries: Seq<usize>) -> bool {
    let nd = ps[p as int].dependencies@.len();
    &&& entries.len() == nd + ps[p as int].dependents@.len()
    &&& sorted_stably(ps, by_size_desc(), ps[p as int].dependencies@, entries.take(nd as int))
    &&& sorted_stably(ps, by_size_desc(), ps[p as int].dependents@, entries.skip(nd as int))
}

/// Law: the details panel lists package `p`'s dependencies first and its
/// dependents after them, each part holding exactly those packages (as often
/// as they occur) and ordered by installed size, largest first.
pub proof fn law_detail_list(ps: Seq<crate::graph::Package>, p: usize, entries: Seq<usize>, x: usize)
    requires
        detail_list(ps, p, entries),
    ensures
        ({
            let nd = ps[p as int].dependencies@.len() as int;
            &&& forall|a: int, b: int|
                0 <= a < b < nd ==> ps[#[trigger] entries[b] as int].installsize <= ps[#[trigger] entries[a] as int].installsize
            &&& forall|a: int, b: int|
                nd <= a < b < entries.len() ==> ps[#[trigger] entries[b] as int].installsize
                    <= ps[#[trigger] entries[a] as int].installsize
            &&& entries.take(nd).contains(x) <==> ps[p as int].dependencies@.contains(x)
            &&& entries.skip(nd).contains(x) <==> ps[p as int].dependents@.contains(x)
        }),
{
    let nd = ps[p as int].dependencies@.len() as int;
    let d = entries.take(nd);
    let r = entries.skip(nd);
    assert forall|a: int, b: int|
        0 <= a < b < nd implies ps[#[trigger] entries[b] as int].installsize <= ps[#[trigger] entries[a] as int].installsize by {
        assert(d[a] == entries[a] && d[b] == entries[b]);
        assert(!key_lt(ps, by_size_desc(), d[b], d[a]));
    }
    assert forall|a: int, b: int|
        nd <= a < b < entries.len() implies ps[#[trigger] entries[b] as int].installsize
            <= ps[#[trigger] entries[a] as int].installsize by {
        assert(r[a - nd] == entries[a] && r[b - nd] == entries[b]);
        assert(!key_lt(ps, by_size_desc(), r[b - nd], r[a - nd]));
    }
    law_sorted_same_items(ps, by_size_desc(), ps[p as int].dependencies@, d, x);
    law_sorted_same_items(ps, by_size_desc(), ps[p as int].dependents@, r, x);
}

/// The number of entries in the details panel's list for package `p`.
pub open spec fn detail_count(ps: Seq<crate::graph::Package>, p: usize) -> int {
    (ps[p as int].dependencies@.len() + ps[p as int].dependents@.len()) as int
}

impl TuiState {
    /// Every row names a package of `g`.
    pub open spec fn rows_valid(&self, g: &DependencyGraph) -> bool {
        forall|k: int|
            0 <= k < self.filtered_indices@.len() ==> #[trigger] self.filtered_indices@[k] < g.packages@.len()
    }

    /// The package on the selected row, if any.
    pub open spec fn selected_pkg(&self) -> Option<usize> {
        selected_package_of(self.filtered_indices@, self.selected)
    }

    /// The package on the selected row, if the selection is a row.
    pub fn selected_package(&self) -> (res: Option<usize>)
        ensures
            res == self.selected_pkg(),
    {
        match self.selected {
            Some(i) => if i < self.filtered_indices.len() {
                Some(self.filtered_indices[i])
            } else {
                None
            },
            None => None,
        }
    }

    /// Refreshes the rows for the current query and sort, keeping the
    /// selected package selected when it is still listed.
    pub fn update_filter(&mut self, graph: &DependencyGraph)
        requires
            old(self).rows_valid(graph),
        ensures
            final(self).rows_valid(graph),
            refiltered(
                graph,
                old(self).filtered_indices@,
                old(self).selected,
                old(self).search_query@,
                old(self).sort_column,
                old(self).sort_direction,
                *final(self),
            ),
            final(self).search_query == old(self).search_query,
            same_settings(*old(self), *final(self)),
    {
        let ghost ps = graph.packages@;
        let ghost rows = self.filtered_indices@;
        let old_pkg = self.selected_package();
        let rows_new = filter_and_sort(graph, self.search_query.as_str(), self.sort_column, self.sort_direction);
        let first = if rows_new.len() > 0 {
            Some(0usize)
        } else {
            None
        };
        let sel = match old_pkg {
            Some(p) => {
                let name = &graph.packages[p].name;
                let mut k: usize = 0;
                assert(rows_new@.skip(0) =~= rows_new@);
                while k < rows_new.len() && graph.packages[rows_new[k]].name != *name
                    invariant
                        k <= rows_new@.len(),
                        forall|m: int| 0 <= m < rows_new@.len() ==> #[trigger] rows_new@[m] < ps.len(),
                        ps == graph.packages@,
                        position_by_name(ps, rows_new@, name@) == k + position_by_name(
                            ps,
                            rows_new@.skip(k as int),
                            name@,
                        ),
                    decreases rows_new.len() - k,
                {
                    proof {
                        assert(rows_new@.skip(k as int).drop_first() =~= rows_new@.skip(k + 1));
                        assert(rows_new@.skip(k as int)[0] == rows_new@[k as int]);
                    }
                    k += 1;
                }
                proof {
                    if k < rows_new.len() {
                        assert(rows_new@.skip(k as int)[0] == rows_new@[k as int]);
                    }
                }
                if k < rows_new.len() {
                    Some(k)
                } else {
                    first
                }
            },
            None => first,
        };
        self.filtered_indices = rows_new;
        self.selected = sel;
        self.details_scroll = 0;
        self.selected_dep_idx = 0;
    }

    /// The starting state: no query, sorted by exclusive size, largest first.
    pub fn new(graph: &DependencyGraph) -> (res: TuiState)
        ensures
            res.rows_valid(graph),
            res.search_query@ == Seq::<char>::empty(),
            !res.search_mode,
            res.sort_column == TuiSortColumn::Exclusive,
            res.sort_direction == SortDirection::Descending,
            res.active_panel == ActivePanel::Table,
            !res.should_quit,
            refiltered(
                graph,
                Seq::empty(),
                None,
                Seq::empty(),
                TuiSortColumn::Exclusive,
                SortDirection::Descending,
                res,
            ),
    {
        let mut app = TuiState {
            filtered_indices: Vec::new(),
            selected: None,
            search_query: String::new(),
            search_mode: false,
            sort_column: TuiSortColumn::Exclusive,
            sort_direction: SortDirection::Descending,
            active_panel: ActivePanel::Table,
            details_scroll: 0,
            selected_dep_idx: 0,
            should_quit: false,
        };
        app.update_filter(graph);
        app
    }

    /// Selects the next row, wrapping to the first.
    pub fn select_next(&mut self)
        ensures
            old(self).filtered_indices@.len() == 0 ==> *final(self) == *old(self),
            old(self).filtered_indices@.len() > 0 ==> moved_to(
                *old(self),
                next_row(old(self).filtered_indices@.len() as int, old(self).selected),
                *final(self),
            ),
    {
        let len = self.filtered_indices.len();
        if len == 0 {
            return ;
        }
        let i = match self.selected {
            Some(i) => if i >= len - 1 {
                0
            } else {
                i + 1
            },
            None => 0,
        };
        self.selected = Some(i);
        self.details_scroll = 0;
        self.selected_dep_idx = 0;
    }

    /// Selects the previous row, wrapping to the last.
    pub fn select_prev(&mut self)
        ensures
            old(self).filtered_indices@.len() == 0 ==> *final(self) == *old(self),
            old(self).filtered_indices@.len() > 0 ==> moved_to(
                *old(self),
                prev_row(old(self).filtered_indices@.len() as int, old(self).selected),
                *final(self),
            ),
    {
        let len = self.filtered_indices.len();
        if len == 0 {
            return ;
        }
        let i = match self.selected {
            Some(i) => if i == 0 {
                len - 1
            } else {
                i - 1
            },
            None => 0,
        };
        self.selected = Some(i);
        self.details_scroll = 0;
        self.selected_dep_idx = 0;
    }

    /// Moves the selection a page down, stopping at the last row.
    pub fn select_page_down(&mut self)
        ensures
            old(self).filtered_indices@.len() == 0 ==> *final(self) == *old(self),
            old(self).filtered_indices@.len() > 0 ==> moved_to(
                *old(self),
                page_down_row(old(self).filtered_indices@.len() as int, old(self).selected),
                *final(self),
            ),
    {
        let len = self.filtered_indices.len();
        if len == 0 {
            return ;
        }
        let i = match self.selected {
            Some(i) => if i >= len || len - i <= PAGE_ROWS {
                len - 1
            } else {
                i + PAGE_ROWS
            },
            None => 0,
        };
        self.selected = Some(i);
        self.details_scroll = 0;
        self.selected_dep_idx = 0;
    }

    /// Moves the selection a page up, stopping at the first row.
    pub fn select_page_up(&mut self)
        ensures
            old(self).filtered_indices@.len() == 0 ==> *final(self) == *old(self),
            old(self).filtered_indices@.len() > 0 ==> moved_to(*old(self), page_up_row(old(self).selected), *final(self)),
    {
        let len = self.filtered_indices.len();
        if len == 0 {
            return ;
        }
        let i = match self.selected {
            Some(i) => if i < PAGE_ROWS {
                0
            } else {
                i - PAGE_ROWS
            },
            None => 0,
        };
        self.selected = Some(i);
        self.details_scroll = 0;
        self.selected_dep_idx = 0;
    }

    /// Selects the first row.
    pub fn select_first(&mut self)
        ensures
            old(self).filtered_indices@.len() == 0 ==> *final(self) == *old(self),
            old(self).filtered_indices@.len() > 0 ==> moved_to(*old(self), 0, *final(self)),
    {
        if self.filtered_indices.len() > 0 {
            self.selected = Some(0);
            self.details_scroll = 0;
            self.selected_dep_idx = 0;
        }
    }

    /// Selects the last row.
    pub fn select_last(&mut self)
        ensures
            old(self).filtered_indices@.len() == 0 ==> *final(self) == *old(self),
            old(self).filtered_indices@.len() > 0 ==> moved_to(
                *old(self),
                (old(self).filtered_indices@.len() - 1) as usize,
                *final(self),
            ),
    {
        if self.filtered_indices.len() > 0 {
            self.selected = Some(self.filtered_indices.len() - 1);
            self.details_scroll = 0;
            self.selected_dep_idx = 0;
        }
    }

    /// Sorts by column `col`: the same column flips the direction, another
    /// starts in its default direction; the rows are refreshed.
    pub fn set_sort_column(&mut self, graph: &DependencyGraph, col: TuiSortColumn)
        requires
            old(self).rows_valid(graph),
        ensures
            final(self).rows_valid(graph),
            (final(self).sort_column, final(self).sort_direction) == sort_choice(
                old(self).sort_column,
                old(self).sort_direction,
                col,
            ),
            refiltered(
                graph,
                old(self).filtered_indices@,
                old(self).selected,
                old(self).search_query@,
                final(self).sort_column,
                final(self).sort_direction,
                *final(self),
            ),
            final(self).search_query == old(self).search_query,
            final(self).search_mode == old(self).search_mode,
            final(self).active_panel == old(self).active_panel,
            final(self).should_quit == old(self).should_quit,
    {
        if self.sort_column == col {
            self.sort_direction = match self.sort_direction {
                SortDirection::Ascending => SortDirection::Descending,
                SortDirection::Descending => SortDirection::Ascending,
            };
        } else {
            self.sort_column = col;
            self.sort_direction = match col {
                TuiSortColumn::Name | TuiSortColumn::Type => SortDirection::Ascending,
                _ => SortDirection::Descending,
            };
        }
        self.update_filter(graph);
    }
}

/// The details panel's list for package `p`: its dependencies, then its
/// dependents, each sorted stably by installed size, largest first.
pub fn detail_entries(graph: &DependencyGraph, p: usize) -> (res: Vec<usize>)
    requires
        graph.indices_valid(),
        p < graph.packages@.len(),
    ensures
        detail_list(graph.packages@, p, res@),
        forall|k: int| 0 <= k < res@.len() ==> #[trigger] res@[k] < graph.packages@.len(),
{
    let ghost ps = graph.packages@;
    let pkg = &graph.packages[p];
    assert forall|k: int| 0 <= k < pkg.dependencies@.len() implies #[trigger] pkg.dependencies@[k] < ps.len() by {
        assert(ps[p as int].dependencies@[k] < ps.len());
    }
    assert forall|k: int| 0 <= k < pkg.dependents@.len() implies #[trigger] pkg.dependents@[k] < ps.len() by {
        assert(ps[p as int].dependents@[k] < ps.len());
    }
    let ord = Order { field: SortField::Size, ascending: false };
    let mut res = sort_stable(&graph.packages, &pkg.dependencies, ord);
    let reqs = sort_stable(&graph.packages, &pkg.dependents, ord);
    let ghost d = res@;
    let mut k: usize = 0;
    while k < reqs.len()
        invariant
            k <= reqs@.len(),
            res@ == d + reqs@.take(k as int),
            forall|m: int| 0 <= m < d.len() ==> #[trigger] d[m] < ps.len(),
            forall|m: int| 0 <= m < reqs@.len() ==> #[trigger] reqs@[m] < ps.len(),
        decreases reqs.len() - k,
    {
        res.push(reqs[k]);
        k += 1;
        assert(res@ =~= d + reqs@.take(k as int));
    }
    proof {
        assert(reqs@.take(reqs@.len() as int) =~= reqs@);
        assert(res@.take(d.len() as int) =~= d);
        assert(res@.skip(d.len() as int) =~= reqs@);
        assert forall|m: int| 0 <= m < res@.len() implies #[trigger] res@[m] < ps.len() by {
            if m >= d.len() {
                assert(res@[m] == reqs@[m - d.len()]);
            }
        }
    }
    res
}

/// The detail cursor after moving up (wrapping to the last entry).
pub open spec fn cursor_up(total: int, cur: usize) -> usize {
    if cur == 0 {
        (total - 1) as usize
    } else {
        (cur - 1) as usize
    }
}

/// The detail cursor after moving down (wrapping to the first entry).
pub open spec fn cursor_down(total: int, cur: usize) -> usize {
    if cur >= total - 1 {
        0
    } else {
        (cur + 1) as usize
    }
}

/// `post` is `pre` with the table selection at `row`, when the table has rows.
pub open spec fn table_move(pre: TuiState, row: usize, post: TuiState) -> bool {
    if pre.filtered_indices@.len() == 0 {
        post == pre
    } else {
        moved_to(pre, row, post)
    }
}

/// `post` is `pre` with the detail cursor moved by `f`, when a package is
/// selected and its list is not empty.
pub open spec fn cursor_move(g: &DependencyGraph, pre: TuiState, up: bool, post: TuiState) -> bool {
    match pre.selected_pkg() {
        Some(p) => {
            let total = detail_count(g.packages@, p);
            if total > 0 {
                post == TuiState {
                    selected_dep_idx: if up {
                        cursor_up(total, pre.selected_dep_idx)
                    } else {
                        cursor_down(total, pre.selected_dep_idx)
                    },
                    ..pre
                }
            } else {
                post == pre
            }
        },
        None => post == pre,
    }
}

/// The effect of moving up (`up`) or down in the focused panel.
pub open spec fn vertical_move(g: &DependencyGraph, pre: TuiState, up: bool, post: TuiState) -> bool {
    if pre.active_panel == ActivePanel::Table {
        table_move(
            pre,
            if up {
                prev_row(pre.filtered_indices@.len() as int, pre.selected)
            } else {
                next_row(pre.filtered_indices@.len() as int, pre.selected)
            },
            post,
        )
    } else {
        cursor_move(g, pre, up, post)
    }
}

/// The effect of jumping from the details panel to package `t`: select its
/// row and focus the table; when `t` is not listed, the query is cleared and
/// the table refreshed first.
pub open spec fn jumped(g: &DependencyGraph, pre: TuiState, t: usize, post: TuiState) -> bool {
    if pre.filtered_indices@.contains(t) {
        post == TuiState {
            selected: Some(position_of(pre.filtered_indices@, t) as usize),
            active_panel: ActivePanel::Table,
            details_scroll: 0,
            selected_dep_idx: 0,
            ..pre
        }
    } else {
        &&& post.search_query@ == Seq::<char>::empty()
        &&& post.search_mode == pre.search_mode
        &&& post.sort_column == pre.sort_column
        &&& post.sort_direction == pre.sort_direction
        &&& post.should_quit == pre.should_quit
        &&& post.details_scroll == 0
        &&& post.selected_dep_idx == 0
        &&& sorted_stably(
            g.packages@,
            tui_order(pre.sort_column, pre.sort_direction),
            table_candidates(g, Seq::empty()),
            post.filtered_indices@,
        )
        &&& if post.filtered_indices@.contains(t) {
            post.selected == Some(position_of(post.filtered_indices@, t) as usize) && post.active_panel
                == ActivePanel::Table
        } else {
            post.selected == reselected(g.packages@, pre.filtered_indices@, pre.selected, post.filtered_indices@)
                && post.active_panel == pre.active_panel
        }
    }
}

/// The effect of Enter outside search mode: in the details panel, jump to
/// the entry under the cursor.
pub open spec fn entered(g: &DependencyGraph, pre: TuiState, post: TuiState) -> bool {
    match pre.selected_pkg() {
        Some(p) => if pre.active_panel == ActivePanel::Details && 0 < detail_count(g.packages@, p)
            && pre.selected_dep_idx < detail_count(g.packages@, p) {
            exists|entries: Seq<usize>|
                detail_list(g.packages@, p, entries) && jumped(g, pre, entries[pre.selected_dep_idx as int], post)
        } else {
            post == pre
        },
        None => post == pre,
    }
}

/// `post` has query `q`, the settings of `pre`, and the table refreshed.
pub open spec fn requeried(g: &DependencyGraph, pre: TuiState, q: Seq<char>, post: TuiState) -> bool {
    &&& post.search_query@ == q
    &&& post.sort_column == pre.sort_column
    &&& post.sort_direction == pre.sort_direction
    &&& post.active_panel == pre.active_panel
    &&& post.should_quit == pre.should_quit
    &&& refiltered(g, pre.filtered_indices@, pre.selected, q, pre.sort_column, pre.sort_direction, post)
}

/// The effect of a key in search mode: Enter and Tab leave it; Esc leaves it
/// and clears the query; Backspace and characters edit the query.
pub open spec fn search_key_effect(g: &DependencyGraph, pre: TuiState, key: Key, post: TuiState) -> bool {
    match key {
        Key::Enter | Key::Tab => post == TuiState { search_mode: false, ..pre },
        Key::Esc => requeried(g, pre, Seq::empty(), post) && !post.search_mode,
        Key::Backspace => requeried(
            g,
            pre,
            if pre.search_query@.len() > 0 {
                pre.search_query@.drop_last()
            } else {
                pre.search_query@
            },
            post,
        ) && post.search_mode,
        Key::Char(c) => requeried(g, pre, pre.search_query@.push(c), post) && post.search_mode,
        _ => post == pre,
    }
}

/// The effect of choosing sort column `col`.
pub open spec fn resorted(g: &DependencyGraph, pre: TuiState, col: TuiSortColumn, post: TuiState) -> bool {
    &&& (post.sort_column, post.sort_direction) == sort_choice(pre.sort_column, pre.sort_direction, col)
    &&& post.search_query == pre.search_query
    &&& post.search_mode == pre.search_mode
    &&& post.active_panel == pre.active_panel
    &&& post.should_quit == pre.should_quit
    &&& refiltered(
        g,
        pre.filtered_indices@,
        pre.selected,
        pre.search_query@,
        post.sort_column,
        post.sort_direction,
        post,
    )
}

/// The effect of a key outside search mode.
pub open spec fn normal_key_effect(g: &DependencyGraph, pre: TuiState, key: Key, ctrl: bool, post: TuiState) -> bool {
    let table = pre.active_panel == ActivePanel::Table;
    let len = pre.filtered_indices@.len() as int;
    match key {
        Key::Char(c) => if c == 'q' || (c == 'c' && ctrl) {
            post == TuiState { should_quit: true, ..pre }
        } else if c == 'f' {
            post == TuiState { search_mode: true, ..pre }
        } else if c == '1' {
            resorted(g, pre, TuiSortColumn::Name, post)
        } else if c == '2' {
            resorted(g, pre, TuiSortColumn::Type, post)
        } else if c == '3' {
            resorted(g, pre, TuiSortColumn::Size, post)
        } else if c == '4' {
            resorted(g, pre, TuiSortColumn::Transitive, post)
        } else if c == '5' {
            resorted(g, pre, TuiSortColumn::Exclusive, post)
        } else if c == 'w' || c == 'W' {
            vertical_move(g, pre, true, post)
        } else if c == 's' || c == 'S' {
            vertical_move(g, pre, false, post)
        } else if c == 'a' || c == 'A' {
            post == TuiState { active_panel: ActivePanel::Table, ..pre }
        } else if c == 'd' || c == 'D' {
            post == TuiState { active_panel: ActivePanel::Details, ..pre }
        } else {
            post == pre
        },
        Key::Esc => if pre.search_query@.len() > 0 {
            requeried(g, pre, Seq::empty(), post) && post.search_mode == pre.search_mode
        } else {
            post == pre
        },
        Key::Tab => post == TuiState {
            active_panel: if table {
                ActivePanel::Details
            } else {
                ActivePanel::Table
            },
            ..pre
        },
        Key::Enter => entered(g, pre, post),
        Key::Up => vertical_move(g, pre, true, post),
        Key::Down => vertical_move(g, pre, false, post),
        Key::Left => post == TuiState { active_panel: ActivePanel::Table, ..pre },
        Key::Right => post == TuiState { active_panel: ActivePanel::Details, ..pre },
        Key::PageUp => if table {
            table_move(pre, page_up_row(pre.selected), post)
        } else {
            post == TuiState {
                details_scroll: if pre.details_scroll >= PAGE_LINES {
                    (pre.details_scroll - PAGE_LINES) as usize
                } else {
                    0
                },
                ..pre
            }
        },
        Key::PageDown => if table {
            table_move(pre, page_down_row(len, pre.selected), post)
        } else {
            post == TuiState {
                details_scroll: if pre.details_scroll + PAGE_LINES <= usize::MAX {
                    (pre.details_scroll + PAGE_LINES) as usize
                } else {
                    usize::MAX
                },
                ..pre
            }
        },
        Key::Home => if table {
            table_move(pre, 0, post)
        } else {
            post == TuiState { details_scroll: 0, ..pre }
        },
        Key::End => if table {
            table_move(pre, (len - 1) as usize, post)
        } else {
            post == TuiState { details_scroll: usize::MAX, ..pre }
        },
        _ => post == pre,
    }
}

/// Law: with the table focused and row `i` selected (outside search mode),
/// Down selects the next row (the first after the last), Up the previous one
/// (the last before the first), PageDown the row 15 further on (at most the
/// last), PageUp the row 15 back (at least the first), Home the first and End
/// the last; the rows, query and sort stay as they were.
pub proof fn law_table_navigation(g: &DependencyGraph, pre: TuiState, key: Key, ctrl: bool, post: TuiState, i: usize)
    requires
        normal_key_effect(g, pre, key, ctrl, post),
        pre.active_panel == ActivePanel::Table,
        pre.selected == Some(i),
        i < pre.filtered_indices@.len(),
        key == Key::Down || key == Key::Up || key == Key::PageDown || key == Key::PageUp || key == Key::Home
            || key == Key::End,
    ensures
        post.filtered_indices == pre.filtered_indices,
        post.search_query == pre.search_query,
        post.sort_column == pre.sort_column,
        post.sort_direction == pre.sort_direction,
        post.active_panel == ActivePanel::Table,
        key == Key::Down ==> post.selected == Some(
            if i + 1 < pre.filtered_indices@.len() {
                (i + 1) as usize
            } else {
                0usize
            },
        ),
        key == Key::Up ==> post.selected == Some(
            if i > 0 {
                (i - 1) as usize
            } else {
                (pre.filtered_indices@.len() - 1) as usize
            },
        ),
        key == Key::PageDown ==> post.selected == Some(
            if i + 15 < pre.filtered_indices@.len() {
                (i + 15) as usize
            } else {
                (pre.filtered_indices@.len() - 1) as usize
            },
        ),
        key == Key::PageUp ==> post.selected == Some(
            if i >= 15 {
                (i - 15) as usize
            } else {
                0usize
            },
        ),
        key == Key::Home ==> post.selected == Some(0usize),
        key == Key::End ==> post.selected == Some((pre.filtered_indices@.len() - 1) as usize),
{
}

/// Law: outside search mode, `q` and Control-`c` quit, `f` opens the search
/// field, Tab switches the focused panel, Left/`a`/`A` focus the table and
/// Right/`d`/`D` the details panel, and Esc clears a non-empty query.
pub proof fn law_key_bindings(g: &DependencyGraph, pre: TuiState, key: Key, ctrl: bool, post: TuiState)
    requires
        normal_key_effect(g, pre, key, ctrl, post),
    ensures
        key == Key::Char('q') || (key == Key::Char('c') && ctrl) ==> post.should_quit,
        key == Key::Char('f') ==> post.search_mode && post.search_query == pre.search_query,
        key == Key::Tab ==> post.active_panel != pre.active_panel,
        key == Key::Left || key == Key::Char('a') || key == Key::Char('A') ==> post.active_panel == ActivePanel::Table,
        key == Key::Right || key == Key::Char('d') || key == Key::Char('D') ==> post.active_panel
            == ActivePanel::Details,
        key == Key::Esc ==> post.search_query@.len() == 0,
        key != Key::Char('q') && !(key == Key::Char('c') && ctrl) ==> post.should_quit == pre.should_quit,
{
    if key == Key::Esc && pre.search_query@.len() == 0 {
        assert(post == pre);
    }
}

/// Law: in search mode, Enter and Tab close the search field keeping the
/// query, Esc closes it and clears the query, Backspace removes the query's
/// last character and any other character is added to its end; the table
/// then lists what matches the new query.
pub proof fn law_search_keys(g: &DependencyGraph, pre: TuiState, key: Key, post: TuiState)
    requires
        search_key_effect(g, pre, key, post),
    ensures
        key == Key::Enter || key == Key::Tab ==> !post.search_mode && post.search_query == pre.search_query,
        key == Key::Esc ==> !post.search_mode && post.search_query@.len() == 0,
        key == Key::Backspace ==> post.search_mode && post.search_query@ == (if pre.search_query@.len() > 0 {
            pre.search_query@.subrange(0, pre.search_query@.len() - 1)
        } else {
            pre.search_query@
        }),
        key matches Key::Char(c) ==> post.search_mode && post.search_query@.len() == pre.search_query@.len() + 1
            && post.search_query@.subrange(0, pre.search_query@.len() as int) == pre.search_query@
            && post.search_query@.last() == c,
        key == Key::Esc || key == Key::Backspace || key is Char ==> forall|x: usize|
            post.filtered_indices@.contains(x) <==> (x < g.packages@.len() && (post.search_query@.len() == 0
                || name_matches(g.packages@[x as int].name@, post.search_query@))),
{
    if key == Key::Esc || key == Key::Backspace || key is Char {
        assert forall|x: usize|
            post.filtered_indices@.contains(x) <==> (x < g.packages@.len() && (post.search_query@.len() == 0
                || name_matches(g.packages@[x as int].name@, post.search_query@))) by {
            law_table_lists_matches(
                g,
                post.search_query@,
                pre.sort_column,
                pre.sort_direction,
                post.filtered_indices@,
                x,
            );
        }
    }
    if key matches Key::Char(c) {
        assert(post.search_query@.subrange(0, pre.search_query@.len() as int) =~= pre.search_query@);
    }
    if key == Key::Backspace && pre.search_query@.len() > 0 {
        assert(pre.search_query@.drop_last() =~= pre.search_query@.subrange(0, pre.search_query@.len() - 1));
    }
}

/// Law: with the details panel focused and a package selected whose list
/// has entries, Down moves the cursor to the next entry (the first after the
/// last) and Up to the previous one (the last before the first); PageDown and
/// PageUp scroll the panel by 10 lines, Home to its top and End to its end.
pub proof fn law_details_navigation(g: &DependencyGraph, pre: TuiState, key: Key, ctrl: bool, post: TuiState, p: usize)
    requires
        g.indices_valid(),
        normal_key_effect(g, pre, key, ctrl, post),
        pre.active_panel == ActivePanel::Details,
        pre.selected_pkg() == Some(p),
        p < g.packages@.len(),
    ensures
        ({
            let total = g.packages@[p as int].dependencies@.len() + g.packages@[p as int].dependents@.len();
            &&& key == Key::Down && total > 0 ==> post.selected_dep_idx == if pre.selected_dep_idx + 1 < total {
                pre.selected_dep_idx + 1
            } else {
                0
            }
            &&& key == Key::Up && total > 0 ==> post.selected_dep_idx == if pre.selected_dep_idx > 0 {
                pre.selected_dep_idx - 1
            } else {
                total - 1
            }
        }),
        key == Key::PageDown ==> post.details_scroll == if pre.details_scroll + 10 <= usize::MAX {
            pre.details_scroll + 10
        } else {
            usize::MAX as int
        },
        key == Key::PageUp ==> post.details_scroll == if pre.details_scroll >= 10 {
            pre.details_scroll - 10
        } else {
            0
        },
        key == Key::Home ==> post.details_scroll == 0,
        key == Key::End ==> post.details_scroll == usize::MAX,
        key == Key::Down || key == Key::Up || key == Key::PageDown || key == Key::PageUp || key == Key::Home
            || key == Key::End ==> post.selected == pre.selected && post.filtered_indices == pre.filtered_indices,
{
    let total = g.packages@[p as int].dependencies@.len() + g.packages@[p as int].dependents@.len();
    assert(detail_count(g.packages@, p) == total);
    if key == Key::Down && total > 0 {
        assert(cursor_move(g, pre, false, post));
        assert(post.selected_dep_idx == cursor_down(total as int, pre.selected_dep_idx));
    }
    if key == Key::Up && total > 0 {
        assert(cursor_move(g, pre, true, post));
        assert(post.selected_dep_idx == cursor_up(total as int, pre.selected_dep_idx));
    }
}

/// Law: outside search mode the keys 1 to 5 sort by name, type, installed
/// size, transitive size and saved space; choosing the column already sorted
/// by flips the direction, another column starts ascending for name and type
/// and descending for the sizes.
pub proof fn law_sort_keys(g: &DependencyGraph, pre: TuiState, c: char, ctrl: bool, post: TuiState)
    requires
        normal_key_effect(g, pre, Key::Char(c), ctrl, post),
        c == '1' || c == '2' || c == '3' || c == '4' || c == '5',
    ensures
        post.sort_column == if c == '1' {
            TuiSortColumn::Name
        } else if c == '2' {
            TuiSortColumn::Type
        } else if c == '3' {
            TuiSortColumn::Size
        } else if c == '4' {
            TuiSortColumn::Transitive
        } else {
            TuiSortColumn::Exclusive
        },
        post.sort_column == pre.sort_column ==> post.sort_direction != pre.sort_direction,
        post.sort_column != pre.sort_column ==> post.sort_direction == if post.sort_column
            == TuiSortColumn::Name || post.sort_column == TuiSortColumn::Type {
            SortDirection::Ascending
        } else {
            SortDirection::Descending
        },
        in_table_order(g.packages@, post.sort_column, post.sort_direction, post.filtered_indices@),
        post.search_query == pre.search_query,
{
    law_table_order(
        g.packages@,
        post.sort_column,
        post.sort_direction,
        table_candidates(g, pre.search_query@),
        post.filtered_indices@,
    );
}

/// The detail cursor kept within the selected package's list: at most its
/// last entry, 0 when the list is empty; unchanged with no package selected.
pub open spec fn clamped_cursor(g: &DependencyGraph, pre: TuiState) -> usize {
    match pre.selected_pkg() {
        Some(p) => {
            let total = detail_count(g.packages@, p);
            if total > 0 {
                if pre.selected_dep_idx <= total - 1 {
                    pre.selected_dep_idx
                } else {
                    (total - 1) as usize
                }
            } else {
                0
            }
        },
        None => pre.selected_dep_idx,
    }
}

/// The details scroll kept within the text: at most the number of lines that
/// do not fit in a panel of `height` rows, two of them borders.
pub open spec fn clamped_scroll(scroll: usize, total_lines: usize, height: usize) -> usize {
    let visible = if height >= 2 {
        height - 2
    } else {
        0
    };
    let limit = if total_lines >= visible {
        total_lines - visible
    } else {
        0
    };
    if scroll <= limit {
        scroll
    } else {
        limit as usize
    }
}

impl TuiState {
    /// Replaces the query and refreshes the rows.
    fn set_query(&mut self, graph: &DependencyGraph, q: String)
        requires
            old(self).rows_valid(graph),
        ensures
            final(self).rows_valid(graph),
            requeried(graph, *old(self), q@, *final(self)),
            final(self).search_mode == old(self).search_mode,
    {
        self.search_query = q;
        self.update_filter(graph);
    }

    /// The first row that lists package `t`, if any.
    fn row_of(&self, t: usize) -> (res: Option<usize>)
        ensures
            match res {
                Some(k) => self.filtered_indices@.contains(t) && k == position_of(self.filtered_indices@, t),
                None => !self.filtered_indices@.contains(t),
            },
    {
        let rows = &self.filtered_indices;
        let mut k: usize = 0;
        assert(rows@.skip(0) =~= rows@);
        while k < rows.len() && rows[k] != t
            invariant
                k <= rows@.len(),
                forall|m: int| 0 <= m < k ==> rows@[m] != t,
                position_of(rows@, t) == k + position_of(rows@.skip(k as int), t),
            decreases rows.len() - k,
        {
            proof {
                assert(rows@.skip(k as int).drop_first() =~= rows@.skip(k + 1));
                assert(rows@.skip(k as int)[0] == rows@[k as int]);
            }
            k += 1;
        }
        if k < rows.len() {
            proof {
                assert(rows@.skip(k as int)[0] == rows@[k as int]);
            }
            Some(k)
        } else {
            None
        }
    }

    /// Moves the detail cursor up or down in the selected package's list.
    fn move_cursor(&mut self, graph: &DependencyGraph, up: bool)
        requires
            graph.indices_valid(),
            old(self).rows_valid(graph),
        ensures
            cursor_move(graph, *old(self), up, *final(self)),
    {
        if let Some(p) = self.selected_package() {
            assert(self.filtered_indices@.contains(p)) by {
                assert(self.filtered_indices@[self.selected.unwrap() as int] == p);
            }
            assert(p < graph.packages@.len()) by {
                assert(self.filtered_indices@[self.selected.unwrap() as int] == p);
            }
            let num_deps = graph.packages[p].dependencies.len();
            let num_reqs = graph.packages[p].dependents.len();
            assert(num_deps + num_reqs <= usize::MAX) by {
                assert(graph.packages@[p as int].dependencies@.len() + graph.packages@[p as int].dependents@.len()
                    <= usize::MAX);
            }
            let total = num_deps + num_reqs;
            if total > 0 {
                if up {
                    if self.selected_dep_idx == 0 {
                        self.selected_dep_idx = total - 1;
                    } else {
                        self.selected_dep_idx = self.selected_dep_idx - 1;
                    }
                } else {
                    if self.selected_dep_idx >= total - 1 {
                        self.selected_dep_idx = 0;
                    } else {
                        self.selected_dep_idx = self.selected_dep_idx + 1;
                    }
                }
            }
        }
    }

    /// Jumps from the details panel to the entry under the cursor.
    fn open_entry(&mut self, graph: &DependencyGraph)
        requires
            graph.indices_valid(),
            old(self).rows_valid(graph),
        ensures
            final(self).rows_valid(graph),
            entered(graph, *old(self), *final(self)),
    {
        if self.active_panel != ActivePanel::Details {
            return ;
        }
        let pkg = match self.selected_package() {
            Some(p) => p,
            None => {
                return ;
            },
        };
        assert(pkg < graph.packages@.len()) by {
            assert(self.filtered_indices@[self.selected.unwrap() as int] == pkg);
        }
        let entries = detail_entries(graph, pkg);
        let total = entries.len();
        if total == 0 || self.selected_dep_idx >= total {
            return ;
        }
        let target = entries[self.selected_dep_idx];
        let ghost pre = *self;
        match self.row_of(target) {
            Some(pos) => {
                self.selected = Some(pos);
                self.active_panel = ActivePanel::Table;
                self.details_scroll = 0;
                self.selected_dep_idx = 0;
                assert(jumped(graph, pre, target, *self));
            },
            None => {
                self.set_query(graph, String::new());
                match self.row_of(target) {
                    Some(pos) => {
                        self.selected = Some(pos);
                        self.active_panel = ActivePanel::Table;
                        self.details_scroll = 0;
                        self.selected_dep_idx = 0;
                    },
                    None => {},
                }
                assert(jumped(graph, pre, target, *self));
            },
        }
    }

    /// Applies one key press (`ctrl` when Control is held).
    pub fn handle_key(&mut self, graph: &DependencyGraph, key: Key, ctrl: bool)
        requires
            graph.indices_valid(),
            old(self).rows_valid(graph),
        ensures
            final(self).rows_valid(graph),
            old(self).search_mode ==> search_key_effect(graph, *old(self), key, *final(self)),
            !old(self).search_mode ==> normal_key_effect(graph, *old(self), key, ctrl, *final(self)),
    {
        if self.search_mode {
            match key {
                Key::Enter | Key::Tab => {
                    self.search_mode = false;
                },
                Key::Esc => {
                    self.search_mode = false;
                    self.set_query(graph, String::new());
                },
                Key::Backspace => {
                    let mut q = chars_of(self.search_query.as_str());
                    let ghost q0 = q@;
                    q.pop();
                    proof {
                        if q0.len() > 0 {
                            assert(q@ == q0.drop_last());
                        } else {
                            assert(q@ == q0);
                        }
                    }
                    self.set_query(graph, string_of(q.as_slice()));
                },
                Key::Char(c) => {
                    let mut q = chars_of(self.search_query.as_str());
                    q.push(c);
                    self.set_query(graph, string_of(q.as_slice()));
                },
                _ => {},
            }
            return ;
        }
        match key {
            Key::Char(c) => {
                if c == 'q' || (c == 'c' && ctrl) {
                    self.should_quit = true;
                } else if c == 'f' {
                    self.search_mode = true;
                } else if c == '1' {
                    self.set_sort_column(graph, TuiSortColumn::Name);
                } else if c == '2' {
                    self.set_sort_column(graph, TuiSortColumn::Type);
                } else if c == '3' {
                    self.set_sort_column(graph, TuiSortColumn::Size);
                } else if c == '4' {
                    self.set_sort_column(graph, TuiSortColumn::Transitive);
                } else if c == '5' {
                    self.set_sort_column(graph, TuiSortColumn::Exclusive);
                } else if c == 'w' || c == 'W' {
                    self.vertical(graph, true);
                } else if c == 's' || c == 'S' {
                    self.vertical(graph, false);
                } else if c == 'a' || c == 'A' {
                    self.active_panel = ActivePanel::Table;
                } else if c == 'd' || c == 'D' {
                    self.active_panel = ActivePanel::Details;
                }
            },
            Key::Esc => {
                if self.search_query.as_str().unicode_len() > 0 {
                    self.set_query(graph, String::new());
                }
            },
            Key::Tab => {
                self.active_panel = match self.active_panel {
                    ActivePanel::Table => ActivePanel::Details,
                    ActivePanel::Details => ActivePanel::Table,
                };
            },
            Key::Enter => {
                self.open_entry(graph);
            },
            Key::Up => {
                self.vertical(graph, true);
            },
            Key::Down => {
                self.vertical(graph, false);
            },
            Key::Left => {
                self.active_panel = ActivePanel::Table;
            },
            Key::Right => {
                self.active_panel = ActivePanel::Details;
            },
            Key::PageUp => {
                match self.active_panel {
                    ActivePanel::Table => self.select_page_up(),
                    ActivePanel::Details => self.details_scroll = self.details_scroll.saturating_sub(PAGE_LINES),
                }
            },
            Key::PageDown => {
                match self.active_panel {
                    ActivePanel::Table => self.select_page_down(),
                    ActivePanel::Details => self.details_scroll = self.details_scroll.saturating_add(PAGE_LINES),
                }
            },
            Key::Home => {
                match self.active_panel {
                    ActivePanel::Table => self.select_first(),
                    ActivePanel::Details => self.details_scroll = 0,
                }
            },
            Key::End => {
                match self.active_panel {
                    ActivePanel::Table => self.select_last(),
                    ActivePanel::Details => self.details_scroll = usize::MAX,
                }
            },
            _ => {},
        }
    }

    /// Moves up or down in the focused panel.
    fn vertical(&mut self, graph: &DependencyGraph, up: bool)
        requires
            graph.indices_valid(),
            old(self).rows_valid(graph),
        ensures
            final(self).rows_valid(graph),
            vertical_move(graph, *old(self), up, *final(self)),
    {
        match self.active_panel {
            ActivePanel::Table => if up {
                self.select_prev()
            } else {
                self.select_next()
            },
            ActivePanel::Details => self.move_cursor(graph, up),
        }
    }

    /// Keeps the detail cursor within the selected package's list (as the
    /// details panel is drawn): at most its last entry, 0 when it is empty.
    pub fn clamp_detail_cursor(&mut self, graph: &DependencyGraph)
        requires
            graph.indices_valid(),
            old(self).rows_valid(graph),
        ensures
            *final(self) == (TuiState { selected_dep_idx: clamped_cursor(graph, *old(self)), ..*old(self) }),
    {
        if let Some(p) = self.selected_package() {
            assert(p < graph.packages@.len()) by {
                assert(self.filtered_indices@[self.selected.unwrap() as int] == p);
            }
            let num_deps = graph.packages[p].dependencies.len();
            let num_reqs = graph.packages[p].dependents.len();
            assert(num_deps + num_reqs <= usize::MAX) by {
                assert(graph.packages@[p as int].dependencies@.len() + graph.packages@[p as int].dependents@.len()
                    <= usize::MAX);
            }
            let total = num_deps + num_reqs;
            if total > 0 {
                if self.selected_dep_idx > total - 1 {
                    self.selected_dep_idx = total - 1;
                }
            } else {
                self.selected_dep_idx = 0;
            }
        }
    }

    /// Keeps the details scroll within the text: at most the number of lines
    /// that do not fit in a panel of `height` rows (two of them borders).
    pub fn clamp_details_scroll(&mut self, total_lines: usize, height: usize)
        ensures
            *final(self) == (TuiState {
                details_scroll: clamped_scroll(old(self).details_scroll, total_lines, height),
                ..*old(self)
            }),
    {
        let visible = height.saturating_sub(2);
        let limit = total_lines.saturating_sub(visible);
        if self.details_scroll > limit {
            self.details_scroll = limit;
        }
    }
}

} // verus!
