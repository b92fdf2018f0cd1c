//! Orders on packages and a stable sort of package indices.
use vstd::prelude::*;
use crate::graph::{Package, PackageType};
use crate::text::{chars_of, contains_chars, contains_seq, lowercase, occurs_at, to_lowercase};

verus! {

/// Lexicographic order on character sequences, by code point. This is the
/// order of `String`'s `Ord` (byte order, which UTF-8 makes agree with the
/// code point order).
pub open spec fn lex_lt(a: Seq<char>, b: Seq<char>) -> bool
    decreases a.len(),
{
    if a.len() == 0 {
        b.len() > 0
    } else if b.len() == 0 {
        false
    } else if a[0] != b[0] {
        a[0] < b[0]
    } else {
        lex_lt(a.drop_first(), b.drop_first())
    }
}

/// The field that packages are ordered by.
#[derive(Debug, Clone, Copy, PartialEq, Eq, Structural)]
pub enum SortField {
    /// By name.
    Name,
    /// By type name, then by name.
    Type,
    /// By installed size.
    Size,
    /// By transitive size.
    Transitive,
    /// By exclusive size.
    Exclusive,
}

/// An order on packages: a field and a direction.
#[derive(Debug, Clone, Copy, PartialEq, Eq, Structural)]
pub struct Order {
    pub field: SortField,
    pub ascending: bool,
}

/// The position of a package type among the type names in alphabetical
/// order: `bun`, `flatpak`, `npm`, `pip`, `rpm`.
pub open spec fn type_rank(t: PackageType) -> int {
    match t {
        PackageType::Bun => 0,
        PackageType::Flatpak => 1,
        PackageType::Npm => 2,
        PackageType::Pip => 3,
        PackageType::Rpm => 4,
    }
}

/// The name of a package type as the listing shows it.
pub open spec fn type_label(t: PackageType) -> Seq<char> {
    match t {
        PackageType::Rpm => seq!['r', 'p', 'm'],
        PackageType::Flatpak => seq!['f', 'l', 'a', 't', 'p', 'a', 'k'],
        PackageType::Npm => seq!['n', 'p', 'm'],
        PackageType::Bun => seq!['b', 'u', 'n'],
        PackageType::Pip => seq!['p', 'i', 'p'],
    }
}

/// Law: package types are ordered as their names are, alphabetically.
pub proof fn law_type_order(a: PackageType, b: PackageType)
    ensures
        type_rank(a) < type_rank(b) <==> lex_lt(type_label(a), type_label(b)),
        type_rank(a) == type_rank(b) <==> a == b,
{
    let la = type_label(a);
    let lb = type_label(b);
    assert(la.len() > 0 && lb.len() > 0);
    if a != b {
        assert(la[0] != lb[0]);
    } else {
        lemma_lex_irrefl(la);
    }
}

/// Package `a` comes before package `b` by `field`, in ascending direction.
pub open spec fn field_lt(ps: Seq<Package>, field: SortField, a: usize, b: usize) -> bool {
    let pa = ps[a as int];
    let pb = ps[b as int];
    match field {
        SortField::Name => lex_lt(pa.name@, pb.name@),
        SortField::Type => type_rank(pa.pkg_type) < type_rank(pb.pkg_type) || (pa.pkg_type
            == pb.pkg_type && lex_lt(pa.name@, pb.name@)),
        SortField::Size => pa.installsize < pb.installsize,
        SortField::Transitive => pa.transitive_size < pb.transitive_size,
        SortField::Exclusive => pa.exclusive_size < pb.exclusive_size,
    }
}

/// Packages `a` and `b` have the same key for `field`.
pub open spec fn field_eq(ps: Seq<Package>, field: SortField, a: usize, b: usize) -> bool {
    let pa = ps[a as int];
    let pb = ps[b as int];
    match field {
        SortField::Name => pa.name@ == pb.name@,
        SortField::Type => pa.pkg_type == pb.pkg_type && pa.name@ == pb.name@,
        SortField::Size => pa.installsize == pb.installsize,
        SortField::Transitive => pa.transitive_size == pb.transitive_size,
        SortField::Exclusive => pa.exclusive_size == pb.exclusive_size,
    }
}

/// Package `a` comes strictly before package `b` in `ord`.
pub open spec fn key_lt(ps: Seq<Package>, ord: Order, a: usize, b: usize) -> bool {
    if ord.ascending {
        field_lt(ps, ord.field, a, b)
    } else {
        field_lt(ps, ord.field, b, a)
    }
}

/// Packages `a` and `b` are tied in `ord`.
pub open spec fn key_eq(ps: Seq<Package>, ord: Order, a: usize, b: usize) -> bool {
    field_eq(ps, ord.field, a, b)
}

/// The packages tied with `x` in `ord`.
pub open spec fn tied_with(ps: Seq<Package>, ord: Order, x: usize) -> spec_fn(usize) -> bool {
    |y: usize| key_eq(ps, ord, y, x)
}

/// `r` is `items` sorted stably by `ord`: in order, of the same length, and
/// with the packages of each tie class in the order `items` has them.
pub open spec fn sorted_stably(ps: Seq<Package>, ord: Order, items: Seq<usize>, r: Seq<usize>) -> bool {
    &&& r.len() == items.len()
    &&& forall|a: int, b: int| 0 <= a < b < r.len() ==> !key_lt(ps, ord, #[trigger] r[b], #[trigger] r[a])
    &&& forall|x: usize| #[trigger] r.filter(tied_with(ps, ord, x)) == items.filter(tied_with(ps, ord, x))
}

// ---------------------------------------------------------------------------
// Lemmas
// ---------------------------------------------------------------------------

proof fn lemma_lex_irrefl(a: Seq<char>)
    ensures
        !lex_lt(a, a),
    decreases a.len(),
{
    if a.len() > 0 {
        lemma_lex_irrefl(a.drop_first());
    }
}

proof fn lemma_lex_total(a: Seq<char>, b: Seq<char>)
    ensures
        a == b || lex_lt(a, b) || lex_lt(b, a),
        !(lex_lt(a, b) && lex_lt(b, a)),
    decreases a.len(),
{
    if a.len() > 0 && b.len() > 0 {
        lemma_lex_total(a.drop_first(), b.drop_first());
        if a[0] == b[0] && a.drop_first() == b.drop_first() {
            assert forall|k: int| 0 <= k < a.len() implies a[k] == b[k] by {
                if k > 0 {
                    assert(a[k] == a.drop_first()[k - 1]);
                    assert(b[k] == b.drop_first()[k - 1]);
                }
            }
            assert(a =~= b);
        }
    } else if a.len() == 0 && b.len() == 0 {
        assert(a =~= b);
    }
}

proof fn lemma_lex_trans(a: Seq<char>, b: Seq<char>, c: Seq<char>)
    requires
        lex_lt(a, b),
        lex_lt(b, c),
    ensures
        lex_lt(a, c),
    decreases a.len(),
{
    if a.len() > 0 && b.len() > 0 && c.len() > 0 {
        if a[0] == b[0] && b[0] == c[0] {
            lemma_lex_trans(a.drop_first(), b.drop_first(), c.drop_first());
        }
    }
}

proof fn lemma_lex_props(a: Seq<char>, b: Seq<char>, c: Seq<char>)
    ensures
        !(lex_lt(a, b) && lex_lt(b, a)),
        lex_lt(a, c) ==> lex_lt(a, b) || lex_lt(b, c),
        (!lex_lt(a, b) && !lex_lt(b, a)) <==> a == b,
{
    lemma_lex_total(a, b);
    lemma_lex_total(b, c);
    lemma_lex_irrefl(a);
    if lex_lt(a, c) && !lex_lt(a, b) {
        if a != b {
            lemma_lex_trans(b, a, c);
        }
    }
}

/// `key_lt` is a strict weak order whose ties are `key_eq`.
pub proof fn lemma_order_props(ps: Seq<Package>, ord: Order, a: usize, b: usize, c: usize)
    ensures
        !(key_lt(ps, ord, a, b) && key_lt(ps, ord, b, a)),
        key_lt(ps, ord, a, c) ==> key_lt(ps, ord, a, b) || key_lt(ps, ord, b, c),
        (!key_lt(ps, ord, a, b) && !key_lt(ps, ord, b, a)) <==> key_eq(ps, ord, a, b),
{
    let na = ps[a as int].name@;
    let nb = ps[b as int].name@;
    let nc = ps[c as int].name@;
    lemma_lex_props(na, nb, nc);
    lemma_lex_props(nc, nb, na);
    lemma_lex_props(nb, na, nc);
    lemma_lex_props(nb, nc, na);
    lemma_lex_props(na, nc, nb);
    lemma_lex_props(nc, na, nb);
}

proof fn lemma_filter_insert(s: Seq<usize>, p: int, x: usize, pred: spec_fn(usize) -> bool)
    requires
        0 <= p <= s.len(),
        pred(x) ==> forall|k: int| p <= k < s.len() ==> !pred(#[trigger] s[k]),
    ensures
        s.insert(p, x).filter(pred) == if pred(x) {
            s.filter(pred).push(x)
        } else {
            s.filter(pred)
        },
{
    let a = s.take(p);
    let b = s.skip(p);
    assert(s.insert(p, x) =~= a + seq![x] + b);
    assert(s =~= a + b);
    Seq::filter_distributes_over_add(a + seq![x], b, pred);
    Seq::filter_distributes_over_add(a, seq![x], pred);
    Seq::filter_distributes_over_add(a, b, pred);
    assert(seq![x] =~= Seq::<usize>::empty().push(x));
    Seq::<usize>::empty().lemma_filter_push(x, pred);
    assert(Seq::<usize>::empty().filter(pred).len() == 0) by {
        Seq::<usize>::empty().lemma_filter_len(pred);
    }
    assert(Seq::<usize>::empty().filter(pred) =~= Seq::<usize>::empty());
    if pred(x) {
        assert(b.all(|y: usize| !pred(y))) by {
            assert forall|k: int| 0 <= k < b.len() implies !pred(b[k]) by {
                assert(b[k] == s[p + k]);
            }
        }
        b.lemma_all_neg_filter_empty(pred);
        assert(b.filter(pred) =~= Seq::<usize>::empty());
        assert(a.filter(pred) + seq![x] + b.filter(pred) =~= a.filter(pred).push(x));
        assert(a.filter(pred) + b.filter(pred) =~= a.filter(pred));
    } else {
        assert(a.filter(pred) + Seq::<usize>::empty() + b.filter(pred) =~= a.filter(pred) + b.filter(pred));
    }
}

/// `r` is in order by `ord`.
pub open spec fn in_order(ps: Seq<Package>, ord: Order, r: Seq<usize>) -> bool {
    forall|a: int, b: int| 0 <= a < b < r.len() ==> !key_lt(ps, ord, #[trigger] r[b], #[trigger] r[a])
}

/// `r1` and `r2` hold the packages of every tie class of `ord` in the same order.
pub open spec fn same_ties(ps: Seq<Package>, ord: Order, r1: Seq<usize>, r2: Seq<usize>) -> bool {
    forall|x: usize| #[trigger] r1.filter(tied_with(ps, ord, x)) == r2.filter(tied_with(ps, ord, x))
}

proof fn lemma_same_ties_equal(ps: Seq<Package>, ord: Order, r1: Seq<usize>, r2: Seq<usize>)
    requires
        r1.len() == r2.len(),
        in_order(ps, ord, r1),
        in_order(ps, ord, r2),
        same_ties(ps, ord, r1, r2),
    ensures
        r1 == r2,
    decreases r1.len(),
{
    if r1.len() == 0 {
        assert(r1 =~= r2);
        return;
    }
    let a = r1[0];
    let b = r2[0];
    let t1 = r1.drop_first();
    let t2 = r2.drop_first();
    assert(r1 =~= seq![a] + t1);
    assert(r2 =~= seq![b] + t2);
    let pa = tied_with(ps, ord, a);
    let pb = tied_with(ps, ord, b);
    assert(pa(a) && pb(b));
    // `a` occurs in `r2` and `b` in `r1`, so neither comes strictly before the other.
    r1.lemma_filter_contains(pa, 0);
    assert(r2.filter(pa) == r1.filter(pa));
    r2.lemma_filter_contains_rev(pa, a);
    let ja = choose|j: int| 0 <= j < r2.len() && r2[j] == a;
    if ja > 0 {
        assert(!key_lt(ps, ord, r2[ja], r2[0]));
    }
    r2.lemma_filter_contains(pb, 0);
    assert(r1.filter(pb) == r2.filter(pb));
    r1.lemma_filter_contains_rev(pb, b);
    let jb = choose|j: int| 0 <= j < r1.len() && r1[j] == b;
    if jb > 0 {
        assert(!key_lt(ps, ord, r1[jb], r1[0]));
    }
    lemma_order_props(ps, ord, a, b, a);
    assert(pa(b));
    // The tie class of `a` starts with `a` in `r1` and with `b` in `r2`.
    t1.lemma_filter_prepend(a, pa);
    t2.lemma_filter_prepend(b, pa);
    assert(r1.filter(pa)[0] == a);
    assert(r2.filter(pa)[0] == b);
    assert(a == b);
    assert forall|x: usize| #[trigger] t1.filter(tied_with(ps, ord, x)) == t2.filter(tied_with(ps, ord, x)) by {
        let px = tied_with(ps, ord, x);
        t1.lemma_filter_prepend(a, px);
        t2.lemma_filter_prepend(a, px);
        assert(r1.filter(px) == r2.filter(px));
        if px(a) {
            assert(t1.filter(px) =~= r1.filter(px).drop_first());
            assert(t2.filter(px) =~= r2.filter(px).drop_first());
        } else {
            assert(t1.filter(px) =~= r1.filter(px));
            assert(t2.filter(px) =~= r2.filter(px));
        }
    }
    assert forall|i: int, j: int| 0 <= i < j < t1.len() implies !key_lt(ps, ord, #[trigger] t1[j], #[trigger] t1[i]) by {
        assert(t1[j] == r1[j + 1] && t1[i] == r1[i + 1]);
    }
    assert forall|i: int, j: int| 0 <= i < j < t2.len() implies !key_lt(ps, ord, #[trigger] t2[j], #[trigger] t2[i]) by {
        assert(t2[j] == r2[j + 1] && t2[i] == r2[i + 1]);
    }
    lemma_same_ties_equal(ps, ord, t1, t2);
}

/// Law: a stable sort has one result: two sequences that both sort `items`
/// stably by `ord` are equal.
pub proof fn law_stable_sort_unique(ps: Seq<Package>, ord: Order, items: Seq<usize>, r1: Seq<usize>, r2: Seq<usize>)
    requires
        sorted_stably(ps, ord, items, r1),
        sorted_stably(ps, ord, items, r2),
    ensures
        r1 == r2,
{
    assert forall|x: usize| #[trigger] r1.filter(tied_with(ps, ord, x)) == r2.filter(tied_with(ps, ord, x)) by {
        assert(r1.filter(tied_with(ps, ord, x)) == items.filter(tied_with(ps, ord, x)));
        assert(r2.filter(tied_with(ps, ord, x)) == items.filter(tied_with(ps, ord, x)));
    }
    lemma_same_ties_equal(ps, ord, r1, r2);
}

/// Law: a stable sort keeps exactly the items it is given.
pub proof fn law_sorted_same_items(ps: Seq<Package>, ord: Order, items: Seq<usize>, r: Seq<usize>, x: usize)
    requires
        sorted_stably(ps, ord, items, r),
    ensures
        r.contains(x) <==> items.contains(x),
{
    let px = tied_with(ps, ord, x);
    assert(px(x));
    assert(r.filter(px) == items.filter(px));
    if r.contains(x) {
        let i = choose|i: int| 0 <= i < r.len() && r[i] == x;
        r.lemma_filter_contains(px, i);
        items.lemma_filter_contains_rev(px, x);
    }
    if items.contains(x) {
        let i = choose|i: int| 0 <= i < items.len() && items[i] == x;
        items.lemma_filter_contains(px, i);
        r.lemma_filter_contains_rev(px, x);
    }
}

/// The indices `0..n` are exactly the integers below `n`.
pub proof fn lemma_all_indices_contains(n: int, x: usize)
    requires
        0 <= n,
    ensures
        all_indices(n).contains(x) <==> x < n,
{
    if x < n {
        assert(all_indices(n)[x as int] == x);
    }
}

/// The packages that match `query` are exactly the indices of packages whose
/// names match it.
pub proof fn lemma_matching_contains(ps: Seq<Package>, query: Seq<char>, x: usize)
    ensures
        matching_indices(ps, query).contains(x) <==> (x < ps.len() && name_matches(ps[x as int].name@, query)),
{
    let all = all_indices(ps.len() as int);
    let pred = matches_query(ps, query);
    if x < ps.len() && name_matches(ps[x as int].name@, query) {
        assert(all[x as int] == x);
        all.lemma_filter_contains(pred, x as int);
    }
    if all.filter(pred).contains(x) {
        let i = choose|i: int| 0 <= i < all.filter(pred).len() && all.filter(pred)[i] == x;
        all.lemma_filter_pred(pred, i);
        all.lemma_filter_contains_rev(pred, x);
        lemma_all_indices_contains(ps.len() as int, x);
    }
}

// ---------------------------------------------------------------------------
// Executable comparison and sort
// ---------------------------------------------------------------------------

/// `a` comes before `b` lexicographically.
pub fn chars_lt(a: &Vec<char>, b: &Vec<char>) -> (res: bool)
    ensures
        res == lex_lt(a@, b@),
{
    let mut i: usize = 0;
    assert(a@.skip(0) =~= a@);
    assert(b@.skip(0) =~= b@);
    while i < a.len() && i < b.len() && a[i] == b[i]
        invariant
            i <= a.len(),
            i <= b.len(),
            lex_lt(a@, b@) == lex_lt(a@.skip(i as int), b@.skip(i as int)),
        decreases a.len() - i,
    {
        proof {
            assert(a@.skip(i as int).drop_first() =~= a@.skip(i + 1));
            assert(b@.skip(i as int).drop_first() =~= b@.skip(i + 1));
        }
        i += 1;
    }
    proof {
        if i < a.len() && i < b.len() {
            assert(a@.skip(i as int)[0] == a@[i as int]);
            assert(b@.skip(i as int)[0] == b@[i as int]);
        }
    }
    if i == a.len() {
        i < b.len()
    } else if i == b.len() {
        false
    } else {
        a[i] < b[i]
    }
}

fn type_rank_of(t: PackageType) -> (res: u8)
    ensures
        res as int == type_rank(t),
{
    match t {
        PackageType::Bun => 0,
        PackageType::Flatpak => 1,
        PackageType::Npm => 2,
        PackageType::Pip => 3,
        PackageType::Rpm => 4,
    }
}

/// Package `a` comes before package `b` by `field`, ascending; `names` holds
/// the characters of every package name.
fn field_less(packages: &Vec<Package>, names: &Vec<Vec<char>>, field: SortField, a: usize, b: usize) -> (res: bool)
    requires
        a < packages@.len(),
        b < packages@.len(),
        names@.len() == packages@.len(),
        forall|i: int| 0 <= i < names@.len() ==> (#[trigger] names@[i])@ == packages@[i].name@,
    ensures
        res == field_lt(packages@, field, a, b),
{
    let pa = &packages[a];
    let pb = &packages[b];
    assert(names@[a as int]@ == pa.name@);
    assert(names@[b as int]@ == pb.name@);
    match field {
        SortField::Name => chars_lt(&names[a], &names[b]),
        SortField::Type => {
            let ra = type_rank_of(pa.pkg_type);
            let rb = type_rank_of(pb.pkg_type);
            if ra < rb {
                true
            } else if ra == rb {
                proof {
                    assert(pa.pkg_type == pb.pkg_type);
                }
                chars_lt(&names[a], &names[b])
            } else {
                false
            }
        },
        SortField::Size => pa.installsize < pb.installsize,
        SortField::Transitive => pa.transitive_size < pb.transitive_size,
        SortField::Exclusive => pa.exclusive_size < pb.exclusive_size,
    }
}

/// Package `a` comes strictly before package `b` in `ord`.
fn key_less(packages: &Vec<Package>, names: &Vec<Vec<char>>, ord: Order, a: usize, b: usize) -> (res: bool)
    requires
        a < packages@.len(),
        b < packages@.len(),
        names@.len() == packages@.len(),
        forall|i: int| 0 <= i < names@.len() ==> (#[trigger] names@[i])@ == packages@[i].name@,
    ensures
        res == key_lt(packages@, ord, a, b),
{
    if ord.ascending {
        field_less(packages, names, ord.field, a, b)
    } else {
        field_less(packages, names, ord.field, b, a)
    }
}

/// The characters of every package name.
fn package_names(packages: &Vec<Package>) -> (names: Vec<Vec<char>>)
    ensures
        names@.len() == packages@.len(),
        forall|i: int| 0 <= i < names@.len() ==> (#[trigger] names@[i])@ == packages@[i].name@,
{
    let mut names: Vec<Vec<char>> = Vec::new();
    while names.len() < packages.len()
        invariant
            names@.len() <= packages@.len(),
            forall|i: int| 0 <= i < names@.len() ==> (#[trigger] names@[i])@ == packages@[i].name@,
        decreases packages.len() - names.len(),
    {
        let c = chars_of(packages[names.len()].name.as_str());
        names.push(c);
    }
    names
}

/// Sorts the package indices `items` stably by `ord` (binary insertion sort).
pub fn sort_stable(packages: &Vec<Package>, items: &Vec<usize>, ord: Order) -> (r: Vec<usize>)
    requires
        forall|k: int| 0 <= k < items@.len() ==> #[trigger] items@[k] < packages@.len(),
    ensures
        sorted_stably(packages@, ord, items@, r@),
        forall|k: int| 0 <= k < r@.len() ==> #[trigger] r@[k] < packages@.len(),
{
    let ghost ps = packages@;
    let names = package_names(packages);
    let mut r: Vec<usize> = Vec::new();
    let mut i: usize = 0;
    proof {
        assert forall|y: usize| #[trigger] r@.filter(tied_with(ps, ord, y)) == items@.take(0).filter(tied_with(ps, ord, y)) by {
            assert(r@ =~= items@.take(0));
        }
    }
    while i < items.len()
        invariant
            ps == packages@,
            names@.len() == packages@.len(),
            forall|k: int| 0 <= k < names@.len() ==> (#[trigger] names@[k])@ == packages@[k].name@,
            forall|k: int| 0 <= k < items@.len() ==> #[trigger] items@[k] < packages@.len(),
            i <= items@.len(),
            r@.len() == i,
            forall|k: int| 0 <= k < r@.len() ==> #[trigger] r@[k] < packages@.len(),
            forall|a: int, b: int| 0 <= a < b < r@.len() ==> !key_lt(ps, ord, #[trigger] r@[b], #[trigger] r@[a]),
            forall|y: usize| #[trigger] r@.filter(tied_with(ps, ord, y)) == items@.take(i as int).filter(tied_with(ps, ord, y)),
        decreases items.len() - i,
    {
        let x = items[i];
        // The first position whose element comes strictly after `x`.
        let mut lo: usize = 0;
        let mut hi: usize = r.len();
        while lo < hi
            invariant
                ps == packages@,
                names@.len() == packages@.len(),
                forall|k: int| 0 <= k < names@.len() ==> (#[trigger] names@[k])@ == packages@[k].name@,
                x < packages@.len(),
                forall|k: int| 0 <= k < r@.len() ==> #[trigger] r@[k] < packages@.len(),
                forall|a: int, b: int| 0 <= a < b < r@.len() ==> !key_lt(ps, ord, #[trigger] r@[b], #[trigger] r@[a]),
                lo <= hi <= r@.len(),
                forall|k: int| 0 <= k < lo ==> !key_lt(ps, ord, x, #[trigger] r@[k]),
                forall|k: int| hi <= k < r@.len() ==> key_lt(ps, ord, x, #[trigger] r@[k]),
            decreases hi - lo,
        {
            let mid = lo + (hi - lo) / 2;
            let m = r[mid];
            if key_less(packages, &names, ord, x, m) {
                proof {
                    assert forall|k: int| mid <= k < r@.len() implies key_lt(ps, ord, x, #[trigger] r@[k]) by {
                        if k > mid {
                            assert(!key_lt(ps, ord, r@[k], r@[mid as int]));
                            lemma_order_props(ps, ord, x, r@[k], m);
                        }
                    }
                }
                hi = mid;
            } else {
                proof {
                    assert forall|k: int| 0 <= k < mid + 1 implies !key_lt(ps, ord, x, #[trigger] r@[k]) by {
                        if k < mid {
                            assert(!key_lt(ps, ord, r@[mid as int], r@[k]));
                            lemma_order_props(ps, ord, x, m, r@[k]);
                        }
                    }
                }
                lo = mid + 1;
            }
        }
        let ghost old_r = r@;
        r.insert(lo, x);
        proof {
            assert(r@ == old_r.insert(lo as int, x));
            assert forall|a: int, b: int| 0 <= a < b < r@.len() implies !key_lt(ps, ord, #[trigger] r@[b], #[trigger] r@[a]) by {
                if b < lo {
                    assert(r@[a] == old_r[a] && r@[b] == old_r[b]);
                } else if b == lo {
                    assert(r@[a] == old_r[a]);
                } else if a == lo {
                    assert(r@[b] == old_r[b - 1]);
                    assert(key_lt(ps, ord, x, old_r[b - 1]));
                    lemma_order_props(ps, ord, x, old_r[b - 1], x);
                } else if a < lo {
                    assert(r@[a] == old_r[a] && r@[b] == old_r[b - 1]);
                } else {
                    assert(r@[a] == old_r[a - 1] && r@[b] == old_r[b - 1]);
                }
            }
            assert(items@.take(i + 1) =~= items@.take(i as int).push(x));
            assert forall|y: usize| #[trigger] r@.filter(tied_with(ps, ord, y)) == items@.take(i + 1).filter(
                tied_with(ps, ord, y),
            ) by {
                let pred = tied_with(ps, ord, y);
                if pred(x) {
                    assert forall|k: int| lo <= k < old_r.len() implies !pred(#[trigger] old_r[k]) by {
                        assert(key_lt(ps, ord, x, old_r[k]));
                        lemma_order_props(ps, ord, x, old_r[k], y);
                        lemma_order_props(ps, ord, old_r[k], y, x);
                        lemma_order_props(ps, ord, x, y, old_r[k]);
                        lemma_order_props(ps, ord, y, x, old_r[k]);
                        lemma_order_props(ps, ord, old_r[k], x, y);
                    }
                }
                lemma_filter_insert(old_r, lo as int, x, pred);
                items@.take(i as int).lemma_filter_push(x, pred);
            }
        }
        i += 1;
    }
    proof {
        assert(items@.take(items@.len() as int) =~= items@);
    }
    r
}

// ---------------------------------------------------------------------------
// Name search
// ---------------------------------------------------------------------------

/// `name` matches the search `query`: its lowercase form contains the
/// lowercase form of the query.
pub open spec fn name_matches(name: Seq<char>, query: Seq<char>) -> bool {
    contains_seq(lowercase(name), lowercase(query))
}

/// Law: a name matches a query when the query, in lowercase, occurs in the
/// name, in lowercase: the search ignores case.
pub proof fn law_name_match(name: Seq<char>, query: Seq<char>)
    ensures
        name_matches(name, query) <==> exists|i: int|
            0 <= i && i + lowercase(query).len() <= lowercase(name).len() && #[trigger] lowercase(name).subrange(
                i,
                i + lowercase(query).len(),
            ) == lowercase(query),
{
    let l = lowercase(name);
    let q = lowercase(query);
    if name_matches(name, query) {
        let i = choose|i: int| occurs_at(l, q, i);
        assert(l.subrange(i, i + q.len()) == q);
    }
    if exists|i: int| 0 <= i && i + q.len() <= l.len() && #[trigger] l.subrange(i, i + q.len()) == q {
        let i = choose|i: int| 0 <= i && i + q.len() <= l.len() && #[trigger] l.subrange(i, i + q.len()) == q;
        assert(occurs_at(l, q, i));
    }
}

/// The indices `0..n` in increasing order.
pub open spec fn all_indices(n: int) -> Seq<usize> {
    Seq::new(n as nat, |i: int| i as usize)
}

/// Package `i` of `ps` matches `query`.
pub open spec fn matches_query(ps: Seq<Package>, query: Seq<char>) -> spec_fn(usize) -> bool {
    |i: usize| name_matches(ps[i as int].name@, query)
}

/// The indices of the packages whose names match `query`, in increasing order.
pub open spec fn matching_indices(ps: Seq<Package>, query: Seq<char>) -> Seq<usize> {
    all_indices(ps.len() as int).filter(matches_query(ps, query))
}

/// The indices `0..n`.
pub fn index_range(n: usize) -> (res: Vec<usize>)
    ensures
        res@ == all_indices(n as int),
{
    let mut res: Vec<usize> = Vec::new();
    let mut i: usize = 0;
    while i < n
        invariant
            i <= n,
            res@ == all_indices(i as int),
        decreases n - i,
    {
        res.push(i);
        i += 1;
        assert(res@ =~= all_indices(i as int));
    }
    res
}

/// The indices of the packages whose names match `query`, in increasing order.
pub fn filter_by_name(packages: &Vec<Package>, query: &str) -> (res: Vec<usize>)
    ensures
        res@ == matching_indices(packages@, query@),
        forall|k: int| 0 <= k < res@.len() ==> #[trigger] res@[k] < packages@.len(),
{
    let ghost pred = matches_query(packages@, query@);
    let q = chars_of(to_lowercase(query).as_str());
    let mut res: Vec<usize> = Vec::new();
    let mut i: usize = 0;
    proof {
        assert(all_indices(0) =~= Seq::<usize>::empty());
        Seq::<usize>::empty().lemma_filter_len(pred);
        assert(all_indices(0).filter(pred) =~= Seq::<usize>::empty());
    }
    while i < packages.len()
        invariant
            i <= packages@.len(),
            q@ == lowercase(query@),
            pred == matches_query(packages@, query@),
            res@ == all_indices(i as int).filter(pred),
            forall|k: int| 0 <= k < res@.len() ==> #[trigger] res@[k] < i,
        decreases packages.len() - i,
    {
        let name = chars_of(to_lowercase(packages[i].name.as_str()).as_str());
        let m = contains_chars(&name, &q);
        proof {
            assert(all_indices(i + 1) =~= all_indices(i as int).push(i));
            all_indices(i as int).lemma_filter_push(i, pred);
        }
        if m {
            res.push(i);
        }
        i += 1;
    }
    res
}

} // verus!
