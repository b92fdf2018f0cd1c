//! The dependency graph of installed packages and its size metrics.
//!
//! A graph is modelled by its adjacency `Seq<Seq<usize>>` (the direct
//! dependencies of each package, by index) and its sizes `Seq<u64>`.
use vstd::prelude::*;
use vstd::hash_map::StringHashMap;
use vstd::set_lib::{lemma_int_range, lemma_len_subset, lemma_subset_equality, set_int_range};

verus! {

// ---------------------------------------------------------------------------
// Data
// ---------------------------------------------------------------------------

/// The package manager a package comes from.
#[derive(Debug, Clone, Copy, PartialEq, Eq, Structural)]
pub enum PackageType {
    Rpm,
    Flatpak,
    Npm,
    Bun,
    Pip,
}

/// Backend-agnostic package input. Any package manager backend produces a
/// `Vec` of these; `resolved_deps` holds indices into that `Vec`.
#[derive(Debug, Clone)]
pub struct PackageInput {
    pub name: String,
    pub version: String,
    pub release: String,
    pub arch: String,
    pub installsize: u64,
    pub summary: String,
    pub description: String,
    /// Indices into the parent `Vec<PackageInput>`: the resolved dependencies.
    pub resolved_deps: Vec<usize>,
    pub pkg_type: PackageType,
    /// Unresolved dependency references (flatpak runtimes, pip requirement names).
    pub flatpak_deps: Vec<String>,
}

/// A package of the graph, with its edges and computed size metrics.
#[derive(Debug, Clone)]
pub struct Package {
    pub name: String,
    pub version: String,
    pub release: String,
    pub arch: String,
    pub installsize: u64,
    pub summary: String,
    pub description: String,
    pub pkg_type: PackageType,
    /// Indices into the packages array.
    pub dependencies: Vec<usize>,
    pub dependents: Vec<usize>,
    /// Size of the package and everything it transitively depends on.
    pub transitive_size: u64,
    /// Space freed by removing the package: it and every dependency that no
    /// remaining package still needs.
    pub exclusive_size: u64,
}

/// All packages, with a map from each name to its (last) index.
pub struct DependencyGraph {
    pub packages: Vec<Package>,
    pub name_to_index: StringHashMap<usize>,
}

// ---------------------------------------------------------------------------
// Graph model
// ---------------------------------------------------------------------------

/// Every edge of `deps` points at a node of the graph.
pub open spec fn edges_in_range(deps: Seq<Seq<usize>>) -> bool {
    forall|a: int, k: int|
        0 <= a < deps.len() && 0 <= k < deps[a].len() ==> #[trigger] deps[a][k] < deps.len()
}

/// `s` holds every direct dependency of each of its nodes.
pub open spec fn closed_under_deps(deps: Seq<Seq<usize>>, s: Set<int>) -> bool {
    forall|a: int, k: int|
        #![trigger s.contains(a), deps[a][k]]
        s.contains(a) && 0 <= a < deps.len() && 0 <= k < deps[a].len() ==> s.contains(
            deps[a][k] as int,
        )
}

/// `x` is reachable from `start` along dependency edges: it lies in every set
/// that holds `start` and is closed under dependencies.
pub open spec fn reachable(deps: Seq<Seq<usize>>, start: int, x: int) -> bool {
    forall|s: Set<int>| #[trigger] closed_under_deps(deps, s) && s.contains(start) ==> s.contains(x)
}

/// `start` together with its recursive closure of dependencies.
pub open spec fn reach_set(deps: Seq<Seq<usize>>, start: int) -> Set<int> {
    Set::new(|x: int| reachable(deps, start, x))
}

/// Package `j` directly depends on package `d`.
pub open spec fn depends_on(deps: Seq<Seq<usize>>, j: int, d: int) -> bool {
    0 <= j < deps.len() && 0 <= d < deps.len() && deps[j].contains(d as usize)
}

/// Some package directly depends on `d`.
pub open spec fn has_dependent(deps: Seq<Seq<usize>>, d: int) -> bool {
    exists|j: int| #[trigger] depends_on(deps, j, d)
}

/// Every package that directly depends on `d` lies in `s`.
pub open spec fn dependents_within(deps: Seq<Seq<usize>>, d: int, s: Set<int>) -> bool {
    forall|j: int| #[trigger] depends_on(deps, j, d) ==> s.contains(j)
}

/// `s` holds every direct dependency of each of its nodes other than
/// `avoid`: a path that follows `s` never goes on through `avoid`.
pub open spec fn closed_avoiding(deps: Seq<Seq<usize>>, avoid: int, s: Set<int>) -> bool {
    forall|a: int, k: int|
        #![trigger s.contains(a), deps[a][k]]
        s.contains(a) && a != avoid && 0 <= a < deps.len() && 0 <= k < deps[a].len() ==> s.contains(
            deps[a][k] as int,
        )
}

/// `s` holds every package that `start` does not reach.
pub open spec fn holds_outside(deps: Seq<Seq<usize>>, start: int, s: Set<int>) -> bool {
    forall|y: int| 0 <= y < deps.len() && !#[trigger] reachable(deps, start, y) ==> s.contains(y)
}

/// `x` is still needed once `start` is removed: a package outside the reach
/// of `start` reaches `x` along a path that does not pass through `start`.
pub open spec fn still_needed(deps: Seq<Seq<usize>>, start: int, x: int) -> bool {
    forall|s: Set<int>| #[trigger] closed_avoiding(deps, start, s) && holds_outside(deps, start, s) ==> s.contains(x)
}

/// The packages that removing `start` frees: `start` itself and every package
/// it reaches that no remaining package still needs (so a dependency cycle
/// that only `start` leads to is freed with it).
pub open spec fn freed_set(deps: Seq<Seq<usize>>, start: int) -> Set<int> {
    Set::new(|x: int| reachable(deps, start, x) && (x == start || !still_needed(deps, start, x)))
}

/// The sum of `sizes[k]` over the `k < n` that `s` holds.
pub open spec fn sum_over(sizes: Seq<u64>, s: Set<int>, n: int) -> int
    decreases n,
{
    if n <= 0 {
        0
    } else {
        sum_over(sizes, s, n - 1) + if s.contains(n - 1) {
            sizes[n - 1] as int
        } else {
            0
        }
    }
}

/// The total size of the nodes in `s`.
pub open spec fn size_of_set(sizes: Seq<u64>, s: Set<int>) -> int {
    sum_over(sizes, s, sizes.len() as int)
}

/// The total size of every node.
pub open spec fn total_size(sizes: Seq<u64>) -> int {
    size_of_set(sizes, Set::new(|x: int| true))
}

/// The number of times `d` occurs in `s`.
pub open spec fn count_in(s: Seq<usize>, d: int) -> nat
    decreases s.len(),
{
    if s.len() == 0 {
        0
    } else {
        count_in(s.drop_last(), d) + if s.last() as int == d {
            1nat
        } else {
            0nat
        }
    }
}

/// The dependents of `d` among the first `n` packages, as `build_graph` lists
/// them: each `j` in increasing order, once per edge from `j` to `d`.
pub open spec fn dependents_upto(deps: Seq<Seq<usize>>, d: int, n: int) -> Seq<usize>
    decreases n,
{
    if n <= 0 {
        seq![]
    } else {
        dependents_upto(deps, d, n - 1) + Seq::new(count_in(deps[n - 1], d), |_k: int| (n - 1) as usize)
    }
}

/// The dependents of `d`, as `build_graph` lists them.
pub open spec fn dependents_of(deps: Seq<Seq<usize>>, d: int) -> Seq<usize> {
    dependents_upto(deps, d, deps.len() as int)
}

/// The map from each name to the last index that carries it.
pub open spec fn name_index(names: Seq<Seq<char>>, n: int) -> Map<Seq<char>, usize>
    decreases n,
{
    if n <= 0 {
        Map::empty()
    } else {
        name_index(names, n - 1).insert(names[n - 1], (n - 1) as usize)
    }
}

/// Dependencies of a package list.
pub open spec fn input_deps(inputs: Seq<PackageInput>) -> Seq<Seq<usize>> {
    inputs.map_values(|p: PackageInput| p.resolved_deps@)
}

/// Sizes of a package list.
pub open spec fn input_sizes(inputs: Seq<PackageInput>) -> Seq<u64> {
    inputs.map_values(|p: PackageInput| p.installsize)
}

/// Names of a package list.
pub open spec fn input_names(inputs: Seq<PackageInput>) -> Seq<Seq<char>> {
    inputs.map_values(|p: PackageInput| p.name@)
}

/// Dependencies of each package of a graph.
pub open spec fn package_deps(packages: Seq<Package>) -> Seq<Seq<usize>> {
    packages.map_values(|p: Package| p.dependencies@)
}

/// Sizes of each package of a graph.
pub open spec fn package_sizes(packages: Seq<Package>) -> Seq<u64> {
    packages.map_values(|p: Package| p.installsize)
}

/// `p` carries the fields of `inp`, its dependencies being `inp.resolved_deps`.
pub open spec fn package_matches(p: Package, inp: PackageInput) -> bool {
    &&& p.name == inp.name
    &&& p.version == inp.version
    &&& p.release == inp.release
    &&& p.arch == inp.arch
    &&& p.installsize == inp.installsize
    &&& p.summary == inp.summary
    &&& p.description == inp.description
    &&& p.pkg_type == inp.pkg_type
    &&& p.dependencies@ == inp.resolved_deps@
}

impl DependencyGraph {
    /// The adjacency of the graph.
    pub open spec fn deps(&self) -> Seq<Seq<usize>> {
        package_deps(self.packages@)
    }

    /// The installed size of each package.
    pub open spec fn sizes(&self) -> Seq<u64> {
        package_sizes(self.packages@)
    }

    /// Every dependency and dependent index names a package, and each
    /// package's two lists together have a length that fits in a `usize`.
    pub open spec fn indices_valid(&self) -> bool {
        let n = self.packages@.len();
        &&& forall|i: int, k: int|
            0 <= i < n && 0 <= k < self.packages@[i].dependencies@.len()
                ==> #[trigger] self.packages@[i].dependencies@[k] < n
        &&& forall|i: int, k: int|
            0 <= i < n && 0 <= k < self.packages@[i].dependents@.len()
                ==> #[trigger] self.packages@[i].dependents@[k] < n
        &&& forall|i: int|
            0 <= i < n ==> #[trigger] self.packages@[i].dependencies@.len()
                + self.packages@[i].dependents@.len() <= usize::MAX
    }

    /// What `build_graph` establishes: edges in range, dependents the reverse
    /// edges, and both size metrics as their definitions give them.
    pub open spec fn well_formed(&self) -> bool {
        let deps = self.deps();
        let sizes = self.sizes();
        &&& self.packages@.len() <= usize::MAX
        &&& edges_in_range(deps)
        &&& total_size(sizes) <= u64::MAX
        &&& forall|i: int|
            #![trigger self.packages@[i]]
            0 <= i < self.packages@.len() ==> {
                &&& self.packages@[i].dependents@ == dependents_of(deps, i)
                &&& self.packages@[i].transitive_size == size_of_set(sizes, reach_set(deps, i))
                &&& self.packages@[i].exclusive_size == size_of_set(sizes, freed_set(deps, i))
            }
    }
}

// ---------------------------------------------------------------------------
// Lemmas on sums
// ---------------------------------------------------------------------------

proof fn lemma_sum_insert(sizes: Seq<u64>, s: Set<int>, x: int, n: int)
    requires
        !s.contains(x),
        0 <= x < n,
    ensures
        sum_over(sizes, s.insert(x), n) == sum_over(sizes, s, n) + sizes[x] as int,
    decreases n,
{
    if n - 1 > x {
        lemma_sum_insert(sizes, s, x, n - 1);
    } else {
        lemma_sum_same(sizes, s.insert(x), s, n - 1);
    }
}

proof fn lemma_sum_same(sizes: Seq<u64>, a: Set<int>, b: Set<int>, n: int)
    requires
        forall|k: int| 0 <= k < n ==> (a.contains(k) <==> b.contains(k)),
    ensures
        sum_over(sizes, a, n) == sum_over(sizes, b, n),
    decreases n,
{
    if n > 0 {
        lemma_sum_same(sizes, a, b, n - 1);
    }
}

proof fn lemma_sum_subset(sizes: Seq<u64>, a: Set<int>, b: Set<int>, n: int)
    requires
        forall|k: int| 0 <= k < n && a.contains(k) ==> b.contains(k),
    ensures
        0 <= sum_over(sizes, a, n) <= sum_over(sizes, b, n),
    decreases n,
{
    if n > 0 {
        lemma_sum_subset(sizes, a, b, n - 1);
    }
}

proof fn lemma_sum_empty(sizes: Seq<u64>, n: int)
    ensures
        sum_over(sizes, Set::empty(), n) == 0,
    decreases n,
{
    if n > 0 {
        lemma_sum_empty(sizes, n - 1);
    }
}

// ---------------------------------------------------------------------------
// Lemmas on the closures
// ---------------------------------------------------------------------------

proof fn lemma_reachable_step(deps: Seq<Seq<usize>>, start: int, a: int, k: int)
    requires
        reachable(deps, start, a),
        0 <= a < deps.len(),
        0 <= k < deps[a].len(),
    ensures
        reachable(deps, start, deps[a][k] as int),
{
    assert forall|s: Set<int>| #[trigger]
        closed_under_deps(deps, s) && s.contains(start) implies s.contains(deps[a][k] as int) by {
        assert(s.contains(a));
    }
}

proof fn lemma_reach_set_eq(deps: Seq<Seq<usize>>, start: int, v: Set<int>)
    requires
        closed_under_deps(deps, v),
        v.contains(start),
        forall|x: int| v.contains(x) ==> reachable(deps, start, x),
    ensures
        reach_set(deps, start) == v,
{
    assert forall|x: int| reach_set(deps, start).contains(x) <==> v.contains(x) by {
        if reach_set(deps, start).contains(x) {
            assert(closed_under_deps(deps, v) && v.contains(start));
        }
    }
    assert(reach_set(deps, start) =~= v);
}

// ---------------------------------------------------------------------------
// Lemmas on edge counts
// ---------------------------------------------------------------------------

proof fn lemma_count_in_take(s: Seq<usize>, k: int, d: int)
    requires
        0 <= k < s.len(),
    ensures
        count_in(s.take(k + 1), d) == count_in(s.take(k), d) + if s[k] as int == d {
            1nat
        } else {
            0nat
        },
{
    assert(s.take(k + 1).drop_last() =~= s.take(k));
}

// ---------------------------------------------------------------------------
// Lemmas on what remains needed
// ---------------------------------------------------------------------------

/// A dependency of a package that is still needed (other than `start`) is
/// still needed too.
proof fn lemma_needed_step(deps: Seq<Seq<usize>>, start: int, a: int, k: int)
    requires
        still_needed(deps, start, a),
        a != start,
        0 <= a < deps.len(),
        0 <= k < deps[a].len(),
    ensures
        still_needed(deps, start, deps[a][k] as int),
{
    assert forall|s: Set<int>| #[trigger]
        closed_avoiding(deps, start, s) && holds_outside(deps, start, s) implies s.contains(deps[a][k] as int) by {
        assert(s.contains(a));
    }
}

// ---------------------------------------------------------------------------
// Transitive size
// ---------------------------------------------------------------------------

/// The installed size of `pkg_idx` plus that of everything it transitively
/// depends on, each package counted once (breadth-first traversal), and the
/// marks of the packages it reaches.
fn compute_transitive_size(pkg_idx: usize, packages: &Vec<Package>) -> (res: (u64, Vec<bool>))
    requires
        pkg_idx < packages@.len(),
        edges_in_range(package_deps(packages@)),
        total_size(package_sizes(packages@)) <= u64::MAX,
    ensures
        res.0 == size_of_set(package_sizes(packages@), reach_set(package_deps(packages@), pkg_idx as int)),
        res.1@.len() == packages@.len(),
        forall|x: int|
            0 <= x < packages@.len() ==> (res.1@[x] <==> reachable(package_deps(packages@), pkg_idx as int, x)),
{
    let ghost deps = package_deps(packages@);
    let ghost sizes = package_sizes(packages@);
    let n = packages.len();
    let ghost full = Set::new(|x: int| true);
    let mut visited: Vec<bool> = Vec::new();
    while visited.len() < n
        invariant
            visited.len() <= n,
            forall|x: int| 0 <= x < visited.len() ==> !visited@[x],
        decreases n - visited.len(),
    {
        visited.push(false);
    }
    let mut queue: Vec<usize> = Vec::new();
    queue.push(pkg_idx);
    visited.set(pkg_idx, true);
    let ghost mut vis: Set<int> = Set::empty().insert(pkg_idx as int);
    let ghost mut done: Set<int> = Set::empty();
    let mut head: usize = 0;
    let mut acc: u64 = 0;
    proof {
        lemma_sum_empty(sizes, n as int);
        assert(reachable(deps, pkg_idx as int, pkg_idx as int));
        lemma_int_range(0, n as int);
    }
    while head < queue.len()
        invariant
            n == packages@.len() == visited@.len() == deps.len() == sizes.len(),
            deps == package_deps(packages@),
            sizes == package_sizes(packages@),
            edges_in_range(deps),
            total_size(sizes) <= u64::MAX,
            full == Set::new(|x: int| true),
            pkg_idx < n,
            head <= queue@.len(),
            vis.finite(),
            done.finite(),
            vis.len() == queue@.len(),
            done.len() == head,
            done.subset_of(vis),
            vis.contains(pkg_idx as int),
            set_int_range(0, n as int).finite(),
            set_int_range(0, n as int).len() == n,
            forall|x: int| 0 <= x < n ==> (visited@[x] <==> #[trigger] vis.contains(x)),
            forall|x: int| #[trigger] vis.contains(x) ==> 0 <= x < n,
            forall|x: int| #[trigger] vis.contains(x) ==> reachable(deps, pkg_idx as int, x),
            forall|k: int|
                head <= k < queue@.len() ==> #[trigger] vis.contains(queue@[k] as int)
                    && !done.contains(queue@[k] as int),
            forall|k: int, l: int| head <= k < l < queue@.len() ==> queue@[k] != queue@[l],
            forall|a: int, k: int|
                #![trigger done.contains(a), deps[a][k]]
                done.contains(a) && 0 <= k < deps[a].len() ==> vis.contains(deps[a][k] as int),
            acc == sum_over(sizes, done, n as int),
        decreases n - head,
    {
        proof {
            lemma_len_subset(vis, set_int_range(0, n as int));
        }
        let curr = queue[head];
        assert(vis.contains(queue@[head as int] as int));
        head += 1;
        proof {
            lemma_sum_insert(sizes, done, curr as int, n as int);
            lemma_sum_subset(sizes, done.insert(curr as int), full, n as int);
        }
        acc = acc + packages[curr].installsize;
        proof {
            done = done.insert(curr as int);
        }
        let deps_len = packages[curr].dependencies.len();
        let mut k: usize = 0;
        while k < deps_len
            invariant
                n == packages@.len() == visited@.len() == deps.len() == sizes.len(),
                deps == package_deps(packages@),
                edges_in_range(deps),
                curr < n,
                deps_len == deps[curr as int].len(),
                k <= deps_len,
                head <= queue@.len(),
                vis.finite(),
                done.finite(),
                vis.len() == queue@.len(),
                done.len() == head,
                done.subset_of(vis),
                done.contains(curr as int),
                vis.contains(pkg_idx as int),
                forall|x: int| 0 <= x < n ==> (visited@[x] <==> #[trigger] vis.contains(x)),
                forall|x: int| #[trigger] vis.contains(x) ==> 0 <= x < n,
                forall|x: int| #[trigger] vis.contains(x) ==> reachable(deps, pkg_idx as int, x),
                forall|j: int|
                    head <= j < queue@.len() ==> #[trigger] vis.contains(queue@[j] as int)
                        && !done.contains(queue@[j] as int),
                forall|j: int, l: int| head <= j < l < queue@.len() ==> queue@[j] != queue@[l],
                forall|a: int, j: int|
                    #![trigger done.contains(a), deps[a][j]]
                    done.contains(a) && a != curr && 0 <= j < deps[a].len() ==> vis.contains(
                        deps[a][j] as int,
                    ),
                forall|j: int| 0 <= j < k ==> vis.contains(#[trigger] deps[curr as int][j] as int),
            decreases deps_len - k,
        {
            let dep = packages[curr].dependencies[k];
            assert(deps[curr as int][k as int] == dep);
            if !visited[dep] {
                proof {
                    assert forall|j: int| head <= j < queue@.len() implies queue@[j] != dep by {
                        assert(vis.contains(queue@[j] as int));
                    }
                }
                visited.set(dep, true);
                queue.push(dep);
                proof {
                    lemma_reachable_step(deps, pkg_idx as int, curr as int, k as int);
                    vis = vis.insert(dep as int);
                }
            }
            k += 1;
        }
    }
    proof {
        lemma_subset_equality(done, vis);
        lemma_reach_set_eq(deps, pkg_idx as int, vis);
        assert forall|x: int| 0 <= x < n implies (visited@[x] <==> reachable(deps, pkg_idx as int, x)) by {
            assert(visited@[x] <==> vis.contains(x));
            assert(reach_set(deps, pkg_idx as int).contains(x) <==> reachable(deps, pkg_idx as int, x));
        }
    }
    (acc, visited)
}

/// The marks of the packages still needed once `pkg_idx` is removed: a
/// breadth-first traversal from every package that `pkg_idx` does not reach,
/// which never goes on through `pkg_idx`.
fn still_needed_marks(pkg_idx: usize, packages: &Vec<Package>, reach: &Vec<bool>) -> (kept: Vec<bool>)
    requires
        pkg_idx < packages@.len(),
        edges_in_range(package_deps(packages@)),
        reach@.len() == packages@.len(),
        forall|x: int|
            0 <= x < packages@.len() ==> (reach@[x] <==> reachable(package_deps(packages@), pkg_idx as int, x)),
    ensures
        kept@.len() == packages@.len(),
        forall|x: int|
            0 <= x < packages@.len() ==> (kept@[x] <==> still_needed(package_deps(packages@), pkg_idx as int, x)),
{
    let ghost deps = package_deps(packages@);
    let ghost start = pkg_idx as int;
    let n = packages.len();
    let mut kept: Vec<bool> = Vec::new();
    let mut queue: Vec<usize> = Vec::new();
    let ghost mut vis: Set<int> = Set::empty();
    while kept.len() < n
        invariant
            n == packages@.len() == reach@.len() == deps.len(),
            deps == package_deps(packages@),
            start == pkg_idx as int,
            kept.len() <= n,
            forall|x: int| 0 <= x < n ==> (reach@[x] <==> reachable(deps, start, x)),
            vis.finite(),
            vis.len() == queue@.len(),
            forall|x: int| 0 <= x < kept.len() ==> (kept@[x] <==> !reach@[x]),
            forall|x: int| 0 <= x < kept.len() ==> (kept@[x] <==> #[trigger] vis.contains(x)),
            forall|x: int| #[trigger] vis.contains(x) ==> 0 <= x < kept.len(),
            forall|k: int| 0 <= k < queue@.len() ==> #[trigger] vis.contains(queue@[k] as int),
            forall|k: int, l: int| 0 <= k < l < queue@.len() ==> queue@[k] != queue@[l],
            forall|x: int| #[trigger] vis.contains(x) ==> still_needed(deps, start, x),
        decreases n - kept.len(),
    {
        let x = kept.len();
        if reach[x] {
            kept.push(false);
        } else {
            proof {
                assert forall|k: int| 0 <= k < queue@.len() implies queue@[k] != x by {
                    assert(vis.contains(queue@[k] as int));
                }
                assert(!reachable(deps, start, x as int));
                assert forall|s: Set<int>| #[trigger]
                    closed_avoiding(deps, start, s) && holds_outside(deps, start, s) implies s.contains(x as int) by {}
                vis = vis.insert(x as int);
            }
            kept.push(true);
            queue.push(x);
        }
    }
    let mut head: usize = 0;
    let ghost mut done: Set<int> = Set::empty();
    proof {
        lemma_int_range(0, n as int);
    }
    while head < queue.len()
        invariant
            n == packages@.len() == reach@.len() == deps.len() == kept@.len(),
            deps == package_deps(packages@),
            edges_in_range(deps),
            start == pkg_idx as int,
            pkg_idx < n,
            head <= queue@.len(),
            vis.finite(),
            done.finite(),
            vis.len() == queue@.len(),
            done.len() == head,
            done.subset_of(vis),
            set_int_range(0, n as int).finite(),
            set_int_range(0, n as int).len() == n,
            forall|x: int| 0 <= x < n && !reach@[x] ==> #[trigger] vis.contains(x),
            forall|x: int| 0 <= x < n ==> (reach@[x] <==> reachable(deps, start, x)),
            forall|x: int| 0 <= x < n ==> (kept@[x] <==> #[trigger] vis.contains(x)),
            forall|x: int| #[trigger] vis.contains(x) ==> 0 <= x < n,
            forall|x: int| #[trigger] vis.contains(x) ==> still_needed(deps, start, x),
            forall|k: int|
                head <= k < queue@.len() ==> #[trigger] vis.contains(queue@[k] as int)
                    && !done.contains(queue@[k] as int),
            forall|k: int, l: int| head <= k < l < queue@.len() ==> queue@[k] != queue@[l],
            forall|a: int, k: int|
                #![trigger done.contains(a), deps[a][k]]
                done.contains(a) && a != start && 0 <= k < deps[a].len() ==> vis.contains(deps[a][k] as int),
        decreases n - head,
    {
        proof {
            lemma_len_subset(vis, set_int_range(0, n as int));
        }
        let curr = queue[head];
        assert(vis.contains(queue@[head as int] as int));
        head += 1;
        proof {
            done = done.insert(curr as int);
        }
        if curr != pkg_idx {
            let deps_len = packages[curr].dependencies.len();
            let mut k: usize = 0;
            while k < deps_len
                invariant
                    n == packages@.len() == kept@.len() == deps.len() == reach@.len(),
                    deps == package_deps(packages@),
                    edges_in_range(deps),
                    start == pkg_idx as int,
                    curr < n,
                    curr != pkg_idx,
                    forall|x: int| 0 <= x < n && !reach@[x] ==> #[trigger] vis.contains(x),
                    deps_len == deps[curr as int].len(),
                    k <= deps_len,
                    head <= queue@.len(),
                    vis.finite(),
                    done.finite(),
                    vis.len() == queue@.len(),
                    done.len() == head,
                    done.subset_of(vis),
                    done.contains(curr as int),
                    forall|x: int| 0 <= x < n ==> (kept@[x] <==> #[trigger] vis.contains(x)),
                    forall|x: int| #[trigger] vis.contains(x) ==> 0 <= x < n,
                    forall|x: int| #[trigger] vis.contains(x) ==> still_needed(deps, start, x),
                    forall|j: int|
                        head <= j < queue@.len() ==> #[trigger] vis.contains(queue@[j] as int)
                            && !done.contains(queue@[j] as int),
                    forall|j: int, l: int| head <= j < l < queue@.len() ==> queue@[j] != queue@[l],
                    forall|a: int, j: int|
                        #![trigger done.contains(a), deps[a][j]]
                        done.contains(a) && a != start && a != curr && 0 <= j < deps[a].len() ==> vis.contains(
                            deps[a][j] as int,
                        ),
                    forall|j: int| 0 <= j < k ==> vis.contains(#[trigger] deps[curr as int][j] as int),
                decreases deps_len - k,
            {
                let dep = packages[curr].dependencies[k];
                assert(deps[curr as int][k as int] == dep);
                if !kept[dep] {
                    proof {
                        assert forall|j: int| head <= j < queue@.len() implies queue@[j] != dep by {
                            assert(vis.contains(queue@[j] as int));
                        }
                        lemma_needed_step(deps, start, curr as int, k as int);
                        vis = vis.insert(dep as int);
                    }
                    kept.set(dep, true);
                    queue.push(dep);
                }
                k += 1;
            }
        }
    }
    proof {
        lemma_subset_equality(done, vis);
        assert(closed_avoiding(deps, start, vis));
        assert(holds_outside(deps, start, vis));
        assert forall|x: int| 0 <= x < n implies (kept@[x] <==> still_needed(deps, start, x)) by {
            if still_needed(deps, start, x) {
                assert(closed_avoiding(deps, start, vis) && holds_outside(deps, start, vis));
                assert(vis.contains(x));
            }
            if kept@[x] {
                assert(vis.contains(x));
            }
        }
    }
    kept
}

/// The space freed by removing `pkg_idx`: its own size and that of every
/// package it reaches that no remaining package still needs.
fn compute_exclusive_size(pkg_idx: usize, packages: &Vec<Package>, reach: &Vec<bool>) -> (res: u64)
    requires
        pkg_idx < packages@.len(),
        edges_in_range(package_deps(packages@)),
        total_size(package_sizes(packages@)) <= u64::MAX,
        reach@.len() == packages@.len(),
        forall|x: int|
            0 <= x < packages@.len() ==> (reach@[x] <==> reachable(package_deps(packages@), pkg_idx as int, x)),
    ensures
        res == size_of_set(package_sizes(packages@), freed_set(package_deps(packages@), pkg_idx as int)),
{
    let ghost deps = package_deps(packages@);
    let ghost sizes = package_sizes(packages@);
    let ghost f = freed_set(deps, pkg_idx as int);
    let ghost full = Set::new(|x: int| true);
    let n = packages.len();
    let kept = still_needed_marks(pkg_idx, packages, reach);
    proof {
        lemma_sum_subset(sizes, f, full, n as int);
    }
    let mut acc: u64 = 0;
    let mut x: usize = 0;
    while x < n
        invariant
            n == packages@.len() == reach@.len() == kept@.len() == sizes.len() == deps.len(),
            deps == package_deps(packages@),
            sizes == package_sizes(packages@),
            f == freed_set(deps, pkg_idx as int),
            x <= n,
            sum_over(sizes, f, n as int) <= u64::MAX,
            forall|y: int| 0 <= y < n ==> (reach@[y] <==> reachable(deps, pkg_idx as int, y)),
            forall|y: int| 0 <= y < n ==> (kept@[y] <==> still_needed(deps, pkg_idx as int, y)),
            acc == sum_over(sizes, f, x as int),
        decreases n - x,
    {
        proof {
            lemma_sum_prefix_le(sizes, f, x + 1, n as int);
        }
        if reach[x] && (x == pkg_idx || !kept[x]) {
            assert(f.contains(x as int));
            acc = acc + packages[x].installsize;
        } else {
            assert(!f.contains(x as int));
        }
        x += 1;
    }
    acc
}

proof fn lemma_sum_prefix_le(sizes: Seq<u64>, s: Set<int>, k: int, n: int)
    requires
        0 <= k <= n,
    ensures
        sum_over(sizes, s, k) <= sum_over(sizes, s, n),
    decreases n - k,
{
    if k < n {
        lemma_sum_prefix_le(sizes, s, k, n - 1);
    }
}

/// Whether every index in `list` is below `n`.
fn all_below(list: &Vec<usize>, n: usize) -> (res: bool)
    ensures
        res == forall|k: int| 0 <= k < list@.len() ==> #[trigger] list@[k] < n,
{
    let mut k: usize = 0;
    while k < list.len()
        invariant
            k <= list@.len(),
            forall|j: int| 0 <= j < k ==> #[trigger] list@[j] < n,
        decreases list.len() - k,
    {
        if list[k] >= n {
            return false;
        }
        k += 1;
    }
    true
}

/// Whether `graph` meets what the browser's functions require: every
/// dependency and dependent index names a package, and each package's two
/// lists together have a length that fits in a `usize`.
pub fn graph_indices_valid(graph: &DependencyGraph) -> (res: bool)
    ensures
        res == graph.indices_valid(),
{
    let n = graph.packages.len();
    let mut i: usize = 0;
    while i < n
        invariant
            n == graph.packages@.len(),
            i <= n,
            forall|a: int, k: int|
                0 <= a < i && 0 <= k < graph.packages@[a].dependencies@.len()
                    ==> #[trigger] graph.packages@[a].dependencies@[k] < n,
            forall|a: int, k: int|
                0 <= a < i && 0 <= k < graph.packages@[a].dependents@.len()
                    ==> #[trigger] graph.packages@[a].dependents@[k] < n,
            forall|a: int|
                0 <= a < i ==> #[trigger] graph.packages@[a].dependencies@.len()
                    + graph.packages@[a].dependents@.len() <= usize::MAX,
        decreases n - i,
    {
        let p = &graph.packages[i];
        if !all_below(&p.dependencies, n) {
            return false;
        }
        if !all_below(&p.dependents, n) {
            return false;
        }
        if p.dependencies.len() > usize::MAX - p.dependents.len() {
            return false;
        }
        i += 1;
    }
    true
}

/// Whether `inputs` meets what `build_graph` requires: every resolved
/// dependency names an input, and the sizes add up within a `u64`.
pub fn graph_inputs_valid(inputs: &Vec<PackageInput>) -> (res: bool)
    ensures
        res == (edges_in_range(input_deps(inputs@)) && total_size(input_sizes(inputs@)) <= u64::MAX),
{
    let ghost deps = input_deps(inputs@);
    let ghost sizes = input_sizes(inputs@);
    let ghost full = Set::new(|x: int| true);
    let n = inputs.len();
    let mut i: usize = 0;
    while i < n
        invariant
            n == inputs@.len() == deps.len(),
            deps == input_deps(inputs@),
            i <= n,
            forall|a: int, k: int| 0 <= a < i && 0 <= k < deps[a].len() ==> #[trigger] deps[a][k] < n,
        decreases n - i,
    {
        let m = inputs[i].resolved_deps.len();
        let mut k: usize = 0;
        while k < m
            invariant
                n == inputs@.len() == deps.len(),
                deps == input_deps(inputs@),
                i < n,
                m == deps[i as int].len(),
                k <= m,
                forall|a: int, j: int| 0 <= a < i && 0 <= j < deps[a].len() ==> #[trigger] deps[a][j] < n,
                forall|j: int| 0 <= j < k ==> #[trigger] deps[i as int][j] < n,
            decreases m - k,
        {
            if inputs[i].resolved_deps[k] >= n {
                assert(deps[i as int][k as int] >= n);
                return false;
            }
            k += 1;
        }
        i += 1;
    }
    let mut acc: u64 = 0;
    let mut i: usize = 0;
    while i < n
        invariant
            n == inputs@.len() == sizes.len(),
            sizes == input_sizes(inputs@),
            full == Set::new(|x: int| true),
            i <= n,
            acc == sum_over(sizes, full, i as int),
        decreases n - i,
    {
        let size = inputs[i].installsize;
        match acc.checked_add(size) {
            Some(v) => {
                acc = v;
            },
            None => {
                proof {
                    lemma_sum_prefix_le(sizes, full, i + 1, n as int);
                }
                return false;
            },
        }
        i += 1;
    }
    true
}

/// Builds the dependency graph of `inputs`: the reverse edges, the name index,
/// and for each package its transitive and exclusive size.
pub fn build_graph(inputs: Vec<PackageInput>) -> (g: DependencyGraph)
    requires
        edges_in_range(input_deps(inputs@)),
        total_size(input_sizes(inputs@)) <= u64::MAX,
    ensures
        g.packages@.len() == inputs@.len(),
        forall|i: int|
            0 <= i < inputs@.len() ==> package_matches(#[trigger] g.packages@[i], inputs@[i]),
        g.deps() == input_deps(inputs@),
        g.sizes() == input_sizes(inputs@),
        g.well_formed(),
        g.name_to_index@ == name_index(input_names(inputs@), inputs@.len() as int),
{
    let n = inputs.len();
    let ghost deps = input_deps(inputs@);
    let ghost sizes = input_sizes(inputs@);
    let ghost names = input_names(inputs@);

    // Reverse edges, from the pre-resolved forward edges.
    let mut rev_deps: Vec<Vec<usize>> = Vec::new();
    while rev_deps.len() < n
        invariant
            rev_deps.len() <= n,
            forall|d: int| 0 <= d < rev_deps.len() ==> (#[trigger] rev_deps@[d])@ == Seq::<usize>::empty(),
        decreases n - rev_deps.len(),
    {
        rev_deps.push(Vec::new());
    }
    let mut i: usize = 0;
    while i < n
        invariant
            n == inputs@.len() == rev_deps@.len(),
            deps == input_deps(inputs@),
            edges_in_range(deps),
            i <= n,
            forall|d: int| 0 <= d < n ==> (#[trigger] rev_deps@[d])@ == dependents_upto(deps, d, i as int),
        decreases n - i,
    {
        let ghost row = deps[i as int];
        let m = inputs[i].resolved_deps.len();
        let mut k: usize = 0;
        proof {
            assert forall|d: int| 0 <= d < n implies (#[trigger] rev_deps@[d])@ == dependents_upto(deps, d, i as int)
                + Seq::new(count_in(row.take(0), d), |_k: int| i) by {
                assert(row.take(0).len() == 0);
                assert(dependents_upto(deps, d, i as int) + Seq::new(0, |_k: int| i) =~= dependents_upto(deps, d, i as int));
            }
        }
        while k < m
            invariant
                n == inputs@.len() == rev_deps@.len(),
                deps == input_deps(inputs@),
                edges_in_range(deps),
                i < n,
                row == deps[i as int],
                m == row.len(),
                k <= m,
                forall|d: int|
                    0 <= d < n ==> (#[trigger] rev_deps@[d])@ == dependents_upto(deps, d, i as int)
                        + Seq::new(count_in(row.take(k as int), d), |_k: int| i),
            decreases m - k,
        {
            let dep = inputs[i].resolved_deps[k];
            assert(row[k as int] == dep);
            let ghost before = rev_deps@;
            rev_deps[dep].push(i);
            proof {
                assert forall|d: int| 0 <= d < n implies (#[trigger] rev_deps@[d])@ == dependents_upto(deps, d, i as int)
                    + Seq::new(count_in(row.take(k + 1), d), |_k: int| i) by {
                    lemma_count_in_take(row, k as int, d);
                    if d == dep {
                        assert(Seq::new(count_in(row.take(k + 1), d), |_k: int| i) =~= Seq::new(
                            count_in(row.take(k as int), d),
                            |_k: int| i,
                        ).push(i));
                        assert(rev_deps@[d]@ =~= dependents_upto(deps, d, i as int) + Seq::new(
                            count_in(row.take(k + 1), d),
                            |_k: int| i,
                        ));
                    } else {
                        assert(rev_deps@[d] == before[d]);
                    }
                }
            }
            k += 1;
        }
        proof {
            assert(row.take(m as int) =~= row);
        }
        i += 1;
    }

    // Packages, moved out of the inputs, and the name index.
    let mut packages: Vec<Package> = Vec::new();
    let mut name_to_index: StringHashMap<usize> = StringHashMap::with_capacity(n);
    let mut i: usize = 0;
    for input in it: inputs
        invariant
            n == it.seq().len() == rev_deps@.len(),
            it.seq() == inputs@,
            i == it.index(),
            i <= n,
            deps == input_deps(inputs@),
            names == input_names(inputs@),
            packages@.len() == i,
            forall|j: int| 0 <= j < i ==> package_matches(#[trigger] packages@[j], inputs@[j]),
            forall|j: int| 0 <= j < i ==> (#[trigger] packages@[j]).dependents@ == dependents_upto(deps, j, n as int),
            forall|d: int| i <= d < n ==> (#[trigger] rev_deps@[d])@ == dependents_upto(deps, d, n as int),
            name_to_index@ == name_index(names, i as int),
    {
        assert(input == inputs@[i as int]);
        name_to_index.insert(input.name.clone(), i);
        let mut dependents: Vec<usize> = Vec::new();
        std::mem::swap(&mut dependents, &mut rev_deps[i]);
        packages.push(Package {
            name: input.name,
            version: input.version,
            release: input.release,
            arch: input.arch,
            installsize: input.installsize,
            summary: input.summary,
            description: input.description,
            pkg_type: input.pkg_type,
            dependencies: input.resolved_deps,
            dependents,
            transitive_size: 0,
            exclusive_size: 0,
        });
        i += 1;
    }
    proof {
        assert(package_deps(packages@) =~= deps);
        assert(package_sizes(packages@) =~= sizes);
    }

    // Transitive and exclusive sizes.
    let mut i: usize = 0;
    while i < n
        invariant
            n == packages@.len() == inputs@.len(),
            package_deps(packages@) == deps,
            package_sizes(packages@) == sizes,
            deps == input_deps(inputs@),
            sizes == input_sizes(inputs@),
            edges_in_range(deps),
            total_size(sizes) <= u64::MAX,
            i <= n,
            forall|j: int| 0 <= j < n ==> package_matches(#[trigger] packages@[j], inputs@[j]),
            forall|j: int| 0 <= j < n ==> (#[trigger] packages@[j]).dependents@ == dependents_upto(deps, j, n as int),
            forall|j: int|
                0 <= j < i ==> (#[trigger] packages@[j]).transitive_size == size_of_set(sizes, reach_set(deps, j)),
            forall|j: int|
                0 <= j < i ==> (#[trigger] packages@[j]).exclusive_size == size_of_set(sizes, freed_set(deps, j)),
        decreases n - i,
    {
        let (t, reach) = compute_transitive_size(i, &packages);
        let e = compute_exclusive_size(i, &packages, &reach);
        let ghost before = packages@;
        packages[i].transitive_size = t;
        packages[i].exclusive_size = e;
        proof {
            assert(package_deps(packages@) =~= package_deps(before));
            assert(package_sizes(packages@) =~= package_sizes(before));
            assert forall|j: int| 0 <= j < n && j != i implies packages@[j] == before[j] by {}
        }
        i += 1;
    }

    DependencyGraph { packages, name_to_index }
}

// ---------------------------------------------------------------------------
// Laws
// ---------------------------------------------------------------------------

proof fn lemma_dependents_in_range(deps: Seq<Seq<usize>>, d: int, n: int)
    requires
        0 <= n <= usize::MAX,
    ensures
        forall|k: int| 0 <= k < dependents_upto(deps, d, n).len() ==> #[trigger] dependents_upto(deps, d, n)[k] < n,
    decreases n,
{
    if n > 0 {
        lemma_dependents_in_range(deps, d, n - 1);
        let a = dependents_upto(deps, d, n - 1);
        let b = Seq::new(count_in(deps[n - 1], d), |_k: int| (n - 1) as usize);
        assert forall|k: int| 0 <= k < (a + b).len() implies #[trigger] (a + b)[k] < n by {
            if k >= a.len() {
                assert((a + b)[k] == b[k - a.len()]);
            }
        }
    }
}

/// In a graph that `build_graph` made, every dependency and dependent index
/// names a package.
pub proof fn lemma_well_formed_edges(g: &DependencyGraph)
    requires
        g.well_formed(),
    ensures
        forall|i: int, k: int|
            0 <= i < g.packages@.len() && 0 <= k < g.packages@[i].dependencies@.len()
                ==> #[trigger] g.packages@[i].dependencies@[k] < g.packages@.len(),
        forall|i: int, k: int|
            0 <= i < g.packages@.len() && 0 <= k < g.packages@[i].dependents@.len()
                ==> #[trigger] g.packages@[i].dependents@[k] < g.packages@.len(),
{
    let deps = g.deps();
    assert forall|i: int, k: int|
        0 <= i < g.packages@.len() && 0 <= k < g.packages@[i].dependencies@.len()
            implies #[trigger] g.packages@[i].dependencies@[k] < g.packages@.len() by {
        assert(deps[i] == g.packages@[i].dependencies@);
    }
    assert forall|i: int, k: int|
        0 <= i < g.packages@.len() && 0 <= k < g.packages@[i].dependents@.len()
            implies #[trigger] g.packages@[i].dependents@[k] < g.packages@.len() by {
        lemma_dependents_in_range(deps, i, deps.len() as int);
    }
}

/// The reachable set holds its start and is closed under dependencies.
pub proof fn lemma_reach_set_closed(deps: Seq<Seq<usize>>, start: int)
    ensures
        reach_set(deps, start).contains(start),
        closed_under_deps(deps, reach_set(deps, start)),
{
    let r = reach_set(deps, start);
    assert forall|a: int, k: int|
        #![trigger r.contains(a), deps[a][k]]
        r.contains(a) && 0 <= a < deps.len() && 0 <= k < deps[a].len() implies r.contains(
            deps[a][k] as int,
        ) by {
        lemma_reachable_step(deps, start, a, k);
    }
}

/// Everything that removing `start` frees is among its transitive dependencies
/// (or is `start` itself), and `start` is freed.
pub proof fn lemma_freed_within_reach(deps: Seq<Seq<usize>>, start: int)
    ensures
        freed_set(deps, start).contains(start),
        freed_set(deps, start).subset_of(reach_set(deps, start)),
{
    assert(reachable(deps, start, start));
}

/// Law: the space freed by removing a package never exceeds its transitive
/// size, and both count at least the package's own size.
pub proof fn law_size_bounds(g: &DependencyGraph, i: int)
    requires
        g.well_formed(),
        0 <= i < g.packages@.len(),
    ensures
        g.packages@[i].installsize <= g.packages@[i].exclusive_size,
        g.packages@[i].exclusive_size <= g.packages@[i].transitive_size,
{
    let deps = g.deps();
    let sizes = g.sizes();
    let n = sizes.len() as int;
    let f = freed_set(deps, i);
    lemma_freed_within_reach(deps, i);
    lemma_sum_subset(sizes, f, reach_set(deps, i), n);
    assert(f.contains(i));
    lemma_sum_subset(sizes, f.remove(i), f, n);
    lemma_sum_insert(sizes, f.remove(i), i, n);
    assert(f.remove(i).insert(i) =~= f);
    assert(sizes[i] == g.packages@[i].installsize);
}

/// Law: a package freed along with `start` (other than `start` itself) is
/// needed by at least one package, and every package that needs it is freed
/// too: nothing that remains installed still requires it.
pub proof fn law_freed_not_required(deps: Seq<Seq<usize>>, start: int, d: int)
    requires
        deps.len() <= usize::MAX,
        edges_in_range(deps),
        0 <= start < deps.len(),
        freed_set(deps, start).contains(d),
        d != start,
    ensures
        has_dependent(deps, d),
        dependents_within(deps, d, freed_set(deps, start)),
        0 <= d < deps.len(),
{
    let f = freed_set(deps, start);
    lemma_freed_within_reach(deps, start);
    // `d` is reached from `start` through an edge: the packages reached
    // through an edge, with `start`, are closed under dependencies.
    let r = reach_set(deps, start);
    let t = Set::new(|x: int| x == start || (r.contains(x) && has_dependent(deps, x)));
    lemma_reach_set_closed(deps, start);
    assert forall|a: int, k: int|
        #![trigger t.contains(a), deps[a][k]]
        t.contains(a) && 0 <= a < deps.len() && 0 <= k < deps[a].len() implies t.contains(deps[a][k] as int) by {
        let e = deps[a][k] as int;
        assert(r.contains(a));
        assert(r.contains(e));
        assert(depends_on(deps, a, e));
    }
    assert(closed_under_deps(deps, t) && t.contains(start));
    assert(t.contains(d));
    assert forall|j: int| #[trigger] depends_on(deps, j, d) implies f.contains(j) by {
        let k = choose|k: int| 0 <= k < deps[j].len() && deps[j][k] == d as usize;
        if j != start {
            if !reachable(deps, start, j) {
                assert forall|s: Set<int>| #[trigger]
                    closed_avoiding(deps, start, s) && holds_outside(deps, start, s) implies s.contains(d) by {
                    assert(s.contains(j));
                    assert(deps[j][k] == d as usize);
                }
                assert(still_needed(deps, start, d));
            } else if still_needed(deps, start, j) {
                lemma_needed_step(deps, start, j, k);
            }
        }
    }
}

/// Law: the freed set is the largest set of packages reached from `start`
/// that nothing outside it needs: every set `s` of packages that `start`
/// reaches, in which each member other than `start` has all its dependents,
/// lies within the freed set. With `law_freed_not_required` this makes the
/// saved space exactly the space an uninstall reclaims, cycles included.
pub proof fn law_freed_largest(deps: Seq<Seq<usize>>, start: int, s: Set<int>)
    requires
        deps.len() <= usize::MAX,
        edges_in_range(deps),
        s.subset_of(reach_set(deps, start)),
        forall|d: int, j: int| s.contains(d) && d != start && #[trigger] depends_on(deps, j, d) ==> s.contains(j),
    ensures
        s.subset_of(freed_set(deps, start)),
{
    let t = Set::new(|y: int| !(s.contains(y) && y != start));
    assert forall|a: int, k: int|
        #![trigger t.contains(a), deps[a][k]]
        t.contains(a) && a != start && 0 <= a < deps.len() && 0 <= k < deps[a].len() implies t.contains(
            deps[a][k] as int,
        ) by {
        let e = deps[a][k] as int;
        if s.contains(e) && e != start {
            assert(depends_on(deps, a, e));
        }
    }
    assert forall|y: int| 0 <= y < deps.len() && !#[trigger] reachable(deps, start, y) implies t.contains(y) by {
        assert(!reach_set(deps, start).contains(y));
    }
    assert forall|x: int| s.contains(x) implies freed_set(deps, start).contains(x) by {
        assert(reach_set(deps, start).contains(x));
        if x != start && still_needed(deps, start, x) {
            assert(closed_avoiding(deps, start, t) && holds_outside(deps, start, t));
        }
    }
}

/// Law: a package that has dependents, all of them freed along with `start`,
/// is freed as well.
pub proof fn law_released_is_freed(deps: Seq<Seq<usize>>, start: int, d: int)
    requires
        deps.len() <= usize::MAX,
        edges_in_range(deps),
        0 <= start < deps.len(),
        0 <= d < deps.len(),
        has_dependent(deps, d),
        dependents_within(deps, d, freed_set(deps, start)),
    ensures
        freed_set(deps, start).contains(d),
{
    let f = freed_set(deps, start);
    let s = f.insert(d);
    lemma_freed_within_reach(deps, start);
    let j = choose|j: int| #[trigger] depends_on(deps, j, d);
    assert(f.contains(j));
    let k = choose|k: int| 0 <= k < deps[j].len() && deps[j][k] == d as usize;
    lemma_reachable_step(deps, start, j, k);
    assert forall|e: int, i: int| s.contains(e) && e != start && #[trigger] depends_on(deps, i, e) implies s.contains(i) by {
        if e != d {
            law_freed_not_required(deps, start, e);
        }
    }
    law_freed_largest(deps, start, s);
}

/// Law: a package's transitive size covers the transitive size of each of its
/// direct dependencies.
pub proof fn law_transitive_covers_dependency(g: &DependencyGraph, i: int, k: int)
    requires
        g.well_formed(),
        0 <= i < g.packages@.len(),
        0 <= k < g.packages@[i].dependencies@.len(),
    ensures
        g.packages@[g.packages@[i].dependencies@[k] as int].transitive_size <= g.packages@[i].transitive_size,
{
    let deps = g.deps();
    let sizes = g.sizes();
    assert(deps[i] == g.packages@[i].dependencies@);
    let j = deps[i][k] as int;
    assert(j < deps.len());
    lemma_reach_set_closed(deps, i);
    let r = reach_set(deps, i);
    assert(r.contains(j));
    assert forall|x: int| reach_set(deps, j).contains(x) implies r.contains(x) by {
        assert(closed_under_deps(deps, r) && r.contains(j));
    }
    lemma_sum_subset(sizes, reach_set(deps, j), r, sizes.len() as int);
}

/// Law: two packages on a common dependency cycle (`i` depends on `j`, and
/// `j` reaches `i`) have the same transitive size.
pub proof fn law_transitive_equal_on_cycle(g: &DependencyGraph, i: int, k: int)
    requires
        g.well_formed(),
        0 <= i < g.packages@.len(),
        0 <= k < g.packages@[i].dependencies@.len(),
        reachable(g.deps(), g.packages@[i].dependencies@[k] as int, i),
    ensures
        g.packages@[g.packages@[i].dependencies@[k] as int].transitive_size == g.packages@[i].transitive_size,
{
    let deps = g.deps();
    let sizes = g.sizes();
    assert(deps[i] == g.packages@[i].dependencies@);
    let j = deps[i][k] as int;
    assert(j < deps.len());
    lemma_reach_set_closed(deps, i);
    lemma_reach_set_closed(deps, j);
    let ri = reach_set(deps, i);
    let rj = reach_set(deps, j);
    assert(ri.contains(j));
    assert(rj.contains(i));
    assert forall|x: int| rj.contains(x) <==> ri.contains(x) by {
        if rj.contains(x) {
            assert(closed_under_deps(deps, ri) && ri.contains(j));
        }
        if ri.contains(x) {
            assert(closed_under_deps(deps, rj) && rj.contains(i));
        }
    }
    assert(rj =~= ri);
}

/// Law: a package without dependencies has transitive and exclusive size equal
/// to its own installed size.
pub proof fn law_leaf_sizes(g: &DependencyGraph, i: int)
    requires
        g.well_formed(),
        0 <= i < g.packages@.len(),
        g.packages@[i].dependencies@.len() == 0,
    ensures
        g.packages@[i].transitive_size == g.packages@[i].installsize,
        g.packages@[i].exclusive_size == g.packages@[i].installsize,
{
    let deps = g.deps();
    let sizes = g.sizes();
    let n = sizes.len() as int;
    let single = Set::<int>::empty().insert(i);
    assert(deps[i] == g.packages@[i].dependencies@);
    assert forall|a: int, k: int|
        #![trigger single.contains(a), deps[a][k]]
        single.contains(a) && 0 <= a < deps.len() && 0 <= k < deps[a].len() implies single.contains(
            deps[a][k] as int,
        ) by {}
    lemma_reach_set_closed(deps, i);
    assert forall|x: int| reach_set(deps, i).contains(x) <==> single.contains(x) by {
        if reach_set(deps, i).contains(x) {
            assert(closed_under_deps(deps, single) && single.contains(i));
        }
    }
    assert(reach_set(deps, i) =~= single);
    lemma_freed_within_reach(deps, i);
    assert(freed_set(deps, i) =~= single);
    lemma_sum_empty(sizes, n);
    lemma_sum_insert(sizes, Set::empty(), i, n);
}

proof fn lemma_count_in_concat(a: Seq<usize>, b: Seq<usize>, x: int)
    ensures
        count_in(a + b, x) == count_in(a, x) + count_in(b, x),
    decreases b.len(),
{
    if b.len() == 0 {
        assert(a + b =~= a);
    } else {
        lemma_count_in_concat(a, b.drop_last(), x);
        assert((a + b).drop_last() =~= a + b.drop_last());
    }
}

proof fn lemma_count_in_repeat(c: nat, m: usize, x: int)
    ensures
        count_in(Seq::new(c, |_k: int| m), x) == if m as int == x {
            c
        } else {
            0
        },
    decreases c,
{
    if c > 0 {
        lemma_count_in_repeat((c - 1) as nat, m, x);
        assert(Seq::new(c, |_k: int| m).drop_last() =~= Seq::new((c - 1) as nat, |_k: int| m));
    }
}

proof fn lemma_dependents_count(deps: Seq<Seq<usize>>, d: int, j: int, n: int)
    requires
        0 <= j,
        n <= usize::MAX,
    ensures
        count_in(dependents_upto(deps, d, n), j) == if j < n {
            count_in(deps[j], d)
        } else {
            0
        },
    decreases n,
{
    if n > 0 {
        lemma_dependents_count(deps, d, j, n - 1);
        lemma_count_in_concat(
            dependents_upto(deps, d, n - 1),
            Seq::new(count_in(deps[n - 1], d), |_k: int| (n - 1) as usize),
            j,
        );
        lemma_count_in_repeat(count_in(deps[n - 1], d), (n - 1) as usize, j);
    }
}

/// Law: dependents are exactly the reverse edges: `j` appears among the
/// dependents of `i` as often as `i` appears among the dependencies of `j`.
pub proof fn law_dependents_reverse(g: &DependencyGraph, i: int, j: int)
    requires
        g.well_formed(),
        0 <= i < g.packages@.len(),
        0 <= j < g.packages@.len(),
    ensures
        count_in(g.packages@[i].dependents@, j) == count_in(g.packages@[j].dependencies@, i),
{
    let deps = g.deps();
    assert(deps[j] == g.packages@[j].dependencies@);
    lemma_dependents_count(deps, i, j, deps.len() as int);
}

/// Law: the name index maps exactly the names that occur, each to the last
/// index that carries it.
pub proof fn law_name_index(names: Seq<Seq<char>>, n: int, name: Seq<char>)
    requires
        0 <= n <= names.len(),
        n <= usize::MAX,
    ensures
        name_index(names, n).contains_key(name) <==> exists|k: int| 0 <= k < n && names[k] == name,
        name_index(names, n).contains_key(name) ==> {
            let v = name_index(names, n)[name] as int;
            &&& 0 <= v < n
            &&& names[v] == name
            &&& forall|k: int| v < k < n ==> names[k] != name
        },
    decreases n,
{
    if n > 0 {
        law_name_index(names, n - 1, name);
        if name_index(names, n - 1).contains_key(name) {
            let k = choose|k: int| 0 <= k < n - 1 && names[k] == name;
            assert(0 <= k < n && names[k] == name);
        }
        if names[n - 1] == name {
            assert(0 <= n - 1 < n && names[n - 1] == name);
        }
    }
}

} // verus!
