//! Resolution of the dependencies that flatpak and pip packages name by
//! reference: flatpak runtimes and Python requirement names.
use vstd::prelude::*;
use vstd::hash_map::StringHashMap;
use crate::bun::pair_view;
use crate::flatpak::strings_of;
use crate::graph::{PackageInput, PackageType};
use crate::text::{chars_of, lemma_split_on_piece, lowercase, split_chars, split_on, string_of, to_lowercase};

verus! {

/// The runtime id and branch of a flatpak reference: `id/arch/branch[/...]`
/// gives `(id, branch)`, a bare non-empty `id` gives `(id, "")`.
pub open spec fn runtime_ref(r: Seq<char>) -> Option<(Seq<char>, Seq<char>)> {
    let parts = split_on(r, '/');
    if parts.len() >= 3 {
        Some((parts[0], parts[2]))
    } else if parts.len() == 1 && parts[0].len() > 0 {
        Some((parts[0], seq![]))
    } else {
        None
    }
}

/// Parses a flatpak runtime reference such as
/// `org.gnome.Platform/x86_64/46` into its id and branch.
pub fn parse_runtime_ref(ref_str: &str) -> (res: Option<(String, String)>)
    ensures
        pair_view(res) == runtime_ref(ref_str@),
{
    let r = chars_of(ref_str);
    let parts = split_chars(&r, '/');
    let ghost pv = parts@.map_values(|l: Vec<char>| l@);
    assert(pv.len() == parts@.len());
    if parts.len() >= 3 {
        assert(pv[0] == parts@[0]@ && pv[2] == parts@[2]@);
        Some((string_of(parts[0].as_slice()), string_of(parts[2].as_slice())))
    } else if parts.len() == 1 && parts[0].len() > 0 {
        assert(pv[0] == parts@[0]@);
        Some((string_of(parts[0].as_slice()), String::new()))
    } else {
        proof {
            if parts@.len() == 1 {
                assert(pv[0] == parts@[0]@);
            }
        }
        None
    }
}

/// The last flatpak among the first `n` inputs with id `id` (and on branch
/// `branch`, when one is given).
pub open spec fn last_flatpak(ins: Seq<PackageInput>, n: int, id: Seq<char>, branch: Option<Seq<char>>) -> Option<
    usize,
>
    decreases n,
{
    if n <= 0 {
        None
    } else {
        let p = ins[n - 1];
        if p.pkg_type == PackageType::Flatpak && p.name@ == id && match branch {
            Some(b) => p.release@ == b,
            None => true,
        } {
            Some((n - 1) as usize)
        } else {
            last_flatpak(ins, n - 1, id, branch)
        }
    }
}

/// The flatpak that a reference with `id` and `branch` resolves to: the last
/// one with that id and branch, else the last one with that id.
pub open spec fn flatpak_lookup(ins: Seq<PackageInput>, id: Seq<char>, branch: Seq<char>) -> Option<usize> {
    match last_flatpak(ins, ins.len() as int, id, Some(branch)) {
        Some(j) => Some(j),
        None => last_flatpak(ins, ins.len() as int, id, None),
    }
}

/// The packages that flatpak `i`'s references `refs` resolve to, in order,
/// leaving out references that resolve to nothing or to `i` itself.
pub open spec fn resolve_refs(ins: Seq<PackageInput>, i: int, refs: Seq<Seq<char>>) -> Seq<usize>
    decreases refs.len(),
{
    if refs.len() == 0 {
        seq![]
    } else {
        let prev = resolve_refs(ins, i, refs.drop_last());
        match runtime_ref(refs.last()) {
            Some((id, br)) => match flatpak_lookup(ins, id, br) {
                Some(j) => if j as int != i {
                    prev.push(j)
                } else {
                    prev
                },
                None => prev,
            },
            None => prev,
        }
    }
}

/// `b` is `a` with (at most) different resolved dependencies.
pub open spec fn same_but_deps(a: PackageInput, b: PackageInput) -> bool {
    &&& a.name == b.name
    &&& a.version == b.version
    &&& a.release == b.release
    &&& a.arch == b.arch
    &&& a.installsize == b.installsize
    &&& a.summary == b.summary
    &&& a.description == b.description
    &&& a.pkg_type == b.pkg_type
    &&& a.flatpak_deps == b.flatpak_deps
}

fn find_last_flatpak(ins: &Vec<PackageInput>, id: &String, branch: Option<&String>) -> (res: Option<usize>)
    ensures
        res == last_flatpak(
            ins@,
            ins@.len() as int,
            id@,
            match branch {
                Some(b) => Some(b@),
                None => None,
            },
        ),
{
    let ghost br = match branch {
        Some(b) => Some(b@),
        None => None::<Seq<char>>,
    };
    let mut n = ins.len();
    while n > 0
        invariant
            n <= ins@.len(),
            br == match branch {
                Some(b) => Some(b@),
                None => None,
            },
            last_flatpak(ins@, ins@.len() as int, id@, br) == last_flatpak(ins@, n as int, id@, br),
        decreases n,
    {
        let p = &ins[n - 1];
        let branch_ok = match branch {
            Some(b) => p.release == *b,
            None => true,
        };
        let hit = p.pkg_type == PackageType::Flatpak && p.name == *id && branch_ok;
        assert(branch_ok == match br {
            Some(b) => p.release@ == b,
            None => true,
        });
        if hit {
            return Some(n - 1);
        }
        n -= 1;
    }
    None
}

/// The packages that flatpak `i`'s references resolve to.
fn resolve_flatpak_refs(ins: &Vec<PackageInput>, i: usize) -> (res: Vec<usize>)
    requires
        i < ins@.len(),
    ensures
        res@ == resolve_refs(ins@, i as int, strings_of(ins@[i as int].flatpak_deps@)),
        forall|k: int| 0 <= k < res@.len() ==> #[trigger] res@[k] < ins@.len(),
{
    let refs = &ins[i].flatpak_deps;
    let ghost rv = strings_of(refs@);
    let mut res: Vec<usize> = Vec::new();
    let mut k: usize = 0;
    assert(rv.take(0) =~= Seq::<Seq<char>>::empty());
    while k < refs.len()
        invariant
            k <= refs@.len(),
            rv == strings_of(refs@),
            refs == ins@[i as int].flatpak_deps,
            res@ == resolve_refs(ins@, i as int, rv.take(k as int)),
            forall|m: int| 0 <= m < res@.len() ==> #[trigger] res@[m] < ins@.len(),
        decreases refs.len() - k,
    {
        proof {
            assert(rv.take(k + 1).drop_last() =~= rv.take(k as int));
            assert(rv.take(k + 1).last() == refs@[k as int]@);
        }
        match parse_runtime_ref(refs[k].as_str()) {
            Some((id, branch)) => {
                let mut found = find_last_flatpak(ins, &id, Some(&branch));
                if found.is_none() {
                    found = find_last_flatpak(ins, &id, None);
                }
                proof {
                    lemma_last_flatpak_bound(ins@, ins@.len() as int, id@, Some(branch@));
                    lemma_last_flatpak_bound(ins@, ins@.len() as int, id@, None);
                }
                match found {
                    Some(j) => if j != i {
                        res.push(j);
                    },
                    None => {},
                }
            },
            None => {},
        }
        k += 1;
    }
    assert(rv.take(refs@.len() as int) =~= rv);
    res
}

proof fn lemma_last_flatpak_bound(ins: Seq<PackageInput>, n: int, id: Seq<char>, br: Option<Seq<char>>)
    requires
        n <= ins.len(),
    ensures
        last_flatpak(ins, n, id, br) matches Some(j) ==> j < n,
    decreases n,
{
    if n > 0 {
        lemma_last_flatpak_bound(ins, n - 1, id, br);
    }
}

/// Resolves the runtime references of every flatpak into package indices.
pub fn resolve_flatpak_deps(inputs: &mut Vec<PackageInput>)
    ensures
        final(inputs)@.len() == old(inputs)@.len(),
        forall|i: int|
            #![trigger final(inputs)@[i]]
            0 <= i < old(inputs)@.len() ==> if old(inputs)@[i].pkg_type == PackageType::Flatpak {
                &&& same_but_deps(old(inputs)@[i], final(inputs)@[i])
                &&& final(inputs)@[i].resolved_deps@ == resolve_refs(
                    old(inputs)@,
                    i,
                    strings_of(old(inputs)@[i].flatpak_deps@),
                )
            } else {
                final(inputs)@[i] == old(inputs)@[i]
            },
{
    let n = inputs.len();
    let mut resolved: Vec<Vec<usize>> = Vec::new();
    while resolved.len() < n
        invariant
            n == inputs@.len() == old(inputs)@.len(),
            inputs@ == old(inputs)@,
            resolved@.len() <= n,
            forall|i: int|
                0 <= i < resolved@.len() ==> (#[trigger] resolved@[i])@ == resolve_refs(
                    inputs@,
                    i,
                    strings_of(inputs@[i].flatpak_deps@),
                ),
        decreases n - resolved.len(),
    {
        let r = resolve_flatpak_refs(inputs, resolved.len());
        resolved.push(r);
    }
    let mut i: usize = 0;
    while i < n
        invariant
            n == inputs@.len() == old(inputs)@.len() == resolved@.len(),
            i <= n,
            forall|x: int|
                i <= x < n ==> (#[trigger] resolved@[x])@ == resolve_refs(
                    old(inputs)@,
                    x,
                    strings_of(old(inputs)@[x].flatpak_deps@),
                ),
            forall|x: int|
                #![trigger inputs@[x]]
                0 <= x < n ==> if x < i && old(inputs)@[x].pkg_type == PackageType::Flatpak {
                    &&& same_but_deps(old(inputs)@[x], inputs@[x])
                    &&& inputs@[x].resolved_deps@ == resolve_refs(
                        old(inputs)@,
                        x,
                        strings_of(old(inputs)@[x].flatpak_deps@),
                    )
                } else {
                    inputs@[x] == old(inputs)@[x]
                },
        decreases n - i,
    {
        let ghost res0 = resolved@;
        if inputs[i].pkg_type == PackageType::Flatpak {
            let mut deps: Vec<usize> = Vec::new();
            std::mem::swap(&mut deps, &mut resolved[i]);
            assert(deps@ == res0[i as int]@);
            inputs[i].resolved_deps = deps;
        }
        proof {
            assert forall|x: int| i + 1 <= x < n implies (#[trigger] resolved@[x])@ == resolve_refs(
                old(inputs)@,
                x,
                strings_of(old(inputs)@[x].flatpak_deps@),
            ) by {
                assert(resolved@[x] == res0[x]);
            }
        }
        i += 1;
    }
}

/// The key by which a Python distribution is found: its name in lowercase,
/// with `_` replaced by `-`.
pub open spec fn pip_key(name: Seq<char>) -> Seq<char> {
    lowercase(name).map_values(|c: char| if c == '_' { '-' } else { c })
}

/// The map from each key to the last Python distribution among the first `n`
/// inputs that has it.
pub open spec fn pip_index(ins: Seq<PackageInput>, n: int) -> Map<Seq<char>, usize>
    decreases n,
{
    if n <= 0 {
        Map::empty()
    } else if ins[n - 1].pkg_type == PackageType::Pip {
        pip_index(ins, n - 1).insert(pip_key(ins[n - 1].name@), (n - 1) as usize)
    } else {
        pip_index(ins, n - 1)
    }
}

/// The distributions that requirement names `deps` of distribution `i`
/// resolve to, in order, leaving out unknown names and `i` itself.
pub open spec fn resolve_pip_names(m: Map<Seq<char>, usize>, i: int, deps: Seq<Seq<char>>) -> Seq<usize>
    decreases deps.len(),
{
    if deps.len() == 0 {
        seq![]
    } else {
        let prev = resolve_pip_names(m, i, deps.drop_last());
        if m.contains_key(deps.last()) && m[deps.last()] as int != i {
            prev.push(m[deps.last()])
        } else {
            prev
        }
    }
}

fn pip_key_of(name: &String) -> (res: String)
    ensures
        res@ == pip_key(name@),
{
    let lower = chars_of(to_lowercase(name.as_str()).as_str());
    let mut out: Vec<char> = Vec::new();
    let mut k: usize = 0;
    while k < lower.len()
        invariant
            k <= lower@.len(),
            out@ == lower@.take(k as int).map_values(|c: char| if c == '_' { '-' } else { c }),
        decreases lower.len() - k,
    {
        let c = lower[k];
        out.push(if c == '_' { '-' } else { c });
        k += 1;
        assert(out@ =~= lower@.take(k as int).map_values(|c: char| if c == '_' { '-' } else { c }));
    }
    assert(lower@.take(lower@.len() as int) =~= lower@);
    string_of(out.as_slice())
}

proof fn lemma_pip_index_bound(ins: Seq<PackageInput>, n: int)
    requires
        0 <= n <= usize::MAX,
    ensures
        forall|k: Seq<char>| #[trigger] pip_index(ins, n).contains_key(k) ==> pip_index(ins, n)[k] < n,
    decreases n,
{
    if n > 0 {
        lemma_pip_index_bound(ins, n - 1);
        assert forall|k: Seq<char>| #[trigger] pip_index(ins, n).contains_key(k) implies pip_index(ins, n)[k] < n by {
            if ins[n - 1].pkg_type == PackageType::Pip && k == pip_key(ins[n - 1].name@) {
            } else {
                assert(pip_index(ins, n - 1).contains_key(k));
            }
        }
    }
}

/// Resolves the requirement names of every Python distribution into package
/// indices.
pub fn resolve_pip_deps(inputs: &mut Vec<PackageInput>)
    ensures
        final(inputs)@.len() == old(inputs)@.len(),
        forall|i: int|
            #![trigger final(inputs)@[i]]
            0 <= i < old(inputs)@.len() ==> if old(inputs)@[i].pkg_type == PackageType::Pip {
                &&& same_but_deps(old(inputs)@[i], final(inputs)@[i])
                &&& final(inputs)@[i].resolved_deps@ == resolve_pip_names(
                    pip_index(old(inputs)@, old(inputs)@.len() as int),
                    i,
                    strings_of(old(inputs)@[i].flatpak_deps@),
                )
            } else {
                final(inputs)@[i] == old(inputs)@[i]
            },
{
    let n = inputs.len();
    let ghost ins0 = inputs@;
    let mut map: StringHashMap<usize> = StringHashMap::new();
    let mut i: usize = 0;
    while i < n
        invariant
            n == inputs@.len(),
            inputs@ == ins0,
            i <= n,
            map@ == pip_index(ins0, i as int),
        decreases n - i,
    {
        if inputs[i].pkg_type == PackageType::Pip {
            let key = pip_key_of(&inputs[i].name);
            map.insert(key, i);
        }
        i += 1;
    }
    proof {
        lemma_pip_index_bound(ins0, n as int);
    }
    let ghost m = map@;
    let mut i: usize = 0;
    while i < n
        invariant
            n == inputs@.len() == ins0.len(),
            i <= n,
            m == map@,
            m == pip_index(ins0, n as int),
            forall|k: Seq<char>| #[trigger] m.contains_key(k) ==> m[k] < n,
            forall|x: int|
                #![trigger inputs@[x]]
                0 <= x < n ==> if x < i && ins0[x].pkg_type == PackageType::Pip {
                    &&& same_but_deps(ins0[x], inputs@[x])
                    &&& inputs@[x].resolved_deps@ == resolve_pip_names(m, x, strings_of(ins0[x].flatpak_deps@))
                } else {
                    inputs@[x] == ins0[x]
                },
        decreases n - i,
    {
        if inputs[i].pkg_type == PackageType::Pip {
            let ghost dv = strings_of(inputs@[i as int].flatpak_deps@);
            let mut resolved: Vec<usize> = Vec::new();
            let mut k: usize = 0;
            assert(dv.take(0) =~= Seq::<Seq<char>>::empty());
            while k < inputs[i].flatpak_deps.len()
                invariant
                    n == inputs@.len(),
                    i < n,
                    inputs@[i as int] == ins0[i as int],
                    m == map@,
                    dv == strings_of(inputs@[i as int].flatpak_deps@),
                    k <= dv.len(),
                    resolved@ == resolve_pip_names(m, i as int, dv.take(k as int)),
                decreases inputs@[i as int].flatpak_deps@.len() - k,
            {
                proof {
                    assert(dv.take(k + 1).drop_last() =~= dv.take(k as int));
                    assert(dv.take(k + 1).last() == inputs@[i as int].flatpak_deps@[k as int]@);
                }
                match map.get(inputs[i].flatpak_deps[k].as_str()) {
                    Some(idx) => if *idx != i {
                        resolved.push(*idx);
                    },
                    None => {},
                }
                k += 1;
            }
            assert(dv.take(dv.len() as int) =~= dv);
            inputs[i].resolved_deps = resolved;
        }
        i += 1;
    }
}

// ---------------------------------------------------------------------------
// Laws
// ---------------------------------------------------------------------------

/// `s` holds no `/`.
pub open spec fn no_slash(s: Seq<char>) -> bool {
    forall|k: int| 0 <= k < s.len() ==> s[k] != '/'
}

/// Law: a reference `id/arch/branch`, possibly followed by more `/`-separated
/// parts, names runtime `id` on `branch`; a bare non-empty `id` names `id`
/// with an empty branch; `id/arch` and the empty text name nothing.
pub proof fn law_runtime_ref(id: Seq<char>, arch: Seq<char>, branch: Seq<char>, rest: Seq<char>)
    requires
        no_slash(id),
        no_slash(arch),
        no_slash(branch),
    ensures
        runtime_ref(id + seq!['/'] + arch + seq!['/'] + branch) == Some((id, branch)),
        runtime_ref(id + seq!['/'] + arch + seq!['/'] + branch + seq!['/'] + rest) == Some((id, branch)),
        id.len() > 0 ==> runtime_ref(id) == Some((id, Seq::<char>::empty())),
        runtime_ref(id + seq!['/'] + arch) is None,
        runtime_ref(Seq::<char>::empty()) is None,
{
    let ab = arch + seq!['/'] + branch;
    let abr = arch + seq!['/'] + branch + seq!['/'] + rest;
    let br = branch + seq!['/'] + rest;
    lemma_split_on_piece(branch, '/', rest);
    lemma_split_on_piece(arch, '/', branch);
    lemma_split_on_piece(arch, '/', br);
    lemma_split_on_piece(id, '/', ab);
    lemma_split_on_piece(id, '/', abr);
    lemma_split_on_piece(id, '/', arch);
    lemma_split_on_piece(Seq::<char>::empty(), '/', Seq::<char>::empty());
    assert(id + seq!['/'] + arch + seq!['/'] + branch =~= id + seq!['/'] + ab);
    assert(id + seq!['/'] + arch + seq!['/'] + branch + seq!['/'] + rest =~= id + seq!['/'] + abr);
    assert(abr =~= arch + seq!['/'] + br);
    let p1 = split_on(id + seq!['/'] + ab, '/');
    assert(p1 =~= seq![id, arch, branch]);
    let p2 = split_on(id + seq!['/'] + abr, '/');
    assert(p2 =~= seq![id, arch] + (seq![branch] + split_on(rest, '/')));
    assert(p2[0] == id && p2[2] == branch);
    assert(split_on(id + seq!['/'] + arch, '/') =~= seq![id, arch]);
}

/// Input `p` is a flatpak with id `id` (on branch `branch`, when one is given).
pub open spec fn flatpak_named(p: PackageInput, id: Seq<char>, branch: Option<Seq<char>>) -> bool {
    &&& p.pkg_type == PackageType::Flatpak
    &&& p.name@ == id
    &&& match branch {
        Some(b) => p.release@ == b,
        None => true,
    }
}

proof fn lemma_last_flatpak(ins: Seq<PackageInput>, n: int, id: Seq<char>, branch: Option<Seq<char>>)
    requires
        0 <= n <= ins.len(),
        n <= usize::MAX,
    ensures
        match last_flatpak(ins, n, id, branch) {
            Some(j) => 0 <= j < n && flatpak_named(ins[j as int], id, branch) && forall|k: int|
                j < k < n ==> !flatpak_named(#[trigger] ins[k], id, branch),
            None => forall|k: int| 0 <= k < n ==> !flatpak_named(#[trigger] ins[k], id, branch),
        },
    decreases n,
{
    if n > 0 {
        lemma_last_flatpak(ins, n - 1, id, branch);
    }
}

/// Law: a runtime reference with `id` and `branch` resolves to an installed
/// flatpak with that id: the last one on that branch when there is one, else
/// the last one with that id; it resolves to nothing only when no flatpak has
/// that id.
pub proof fn law_flatpak_lookup(ins: Seq<PackageInput>, id: Seq<char>, branch: Seq<char>)
    requires
        ins.len() <= usize::MAX,
    ensures
        match flatpak_lookup(ins, id, branch) {
            Some(j) => {
                &&& 0 <= j < ins.len()
                &&& ins[j as int].pkg_type == PackageType::Flatpak
                &&& ins[j as int].name@ == id
                &&& (exists|k: int| 0 <= k < ins.len() && #[trigger] flatpak_named(ins[k], id, Some(branch)))
                    ==> ins[j as int].release@ == branch
                &&& forall|k: int|
                    j < k < ins.len() && ins[k].pkg_type == PackageType::Flatpak && #[trigger] ins[k].name@ == id
                        ==> ins[k].release@ != branch && (exists|k2: int|
                        0 <= k2 < ins.len() && #[trigger] flatpak_named(ins[k2], id, Some(branch)))
            },
            None => forall|k: int|
                0 <= k < ins.len() ==> !(ins[k].pkg_type == PackageType::Flatpak && #[trigger] ins[k].name@ == id),
        },
{
    let n = ins.len() as int;
    lemma_last_flatpak(ins, n, id, Some(branch));
    lemma_last_flatpak(ins, n, id, None);
    match last_flatpak(ins, n, id, Some(branch)) {
        Some(j) => {
            assert forall|k: int|
                j < k < ins.len() && ins[k].pkg_type == PackageType::Flatpak && #[trigger] ins[k].name@ == id
                    implies ins[k].release@ != branch && (exists|k2: int|
                    0 <= k2 < ins.len() && #[trigger] flatpak_named(ins[k2], id, Some(branch))) by {
                assert(!flatpak_named(ins[k], id, Some(branch)));
                assert(flatpak_named(ins[j as int], id, Some(branch)));
            }
        },
        None => {
            match last_flatpak(ins, n, id, None) {
                Some(j) => {
                    assert forall|k: int| 0 <= k < ins.len() implies !#[trigger] flatpak_named(ins[k], id, Some(branch)) by {
                        assert(!flatpak_named(ins[k], id, Some(branch)));
                    }
                    assert forall|k: int|
                        j < k < ins.len() && ins[k].pkg_type == PackageType::Flatpak && #[trigger] ins[k].name@ == id
                            implies false by {
                        assert(!flatpak_named(ins[k], id, None));
                    }
                },
                None => {
                    assert forall|k: int|
                        0 <= k < ins.len() implies !(ins[k].pkg_type == PackageType::Flatpak && #[trigger] ins[k].name@
                            == id) by {
                        assert(!flatpak_named(ins[k], id, None));
                    }
                },
            }
        },
    }
}

/// Law: each reference of flatpak `i` that resolves to another flatpak puts
/// that flatpak among `i`'s dependencies.
pub proof fn law_flatpak_refs_resolve(ins: Seq<PackageInput>, i: int, refs: Seq<Seq<char>>, m: int, j: usize)
    requires
        0 <= m < refs.len(),
        runtime_ref(refs[m]) matches Some((id, br)) && flatpak_lookup(ins, id, br) == Some(j),
        j as int != i,
    ensures
        resolve_refs(ins, i, refs).contains(j),
    decreases refs.len(),
{
    let prev = resolve_refs(ins, i, refs.drop_last());
    if m == refs.len() - 1 {
        assert(resolve_refs(ins, i, refs) == prev.push(j));
        assert(prev.push(j)[prev.len() as int] == j);
    } else {
        assert(refs.drop_last()[m] == refs[m]);
        law_flatpak_refs_resolve(ins, i, refs.drop_last(), m, j);
        let k = choose|k: int| 0 <= k < prev.len() && prev[k] == j;
        let r = resolve_refs(ins, i, refs);
        assert(r == prev || r == prev.push(r.last()));
        assert(r[k] == j);
    }
}

/// `req` is `name` in lowercase with each `_` written as `-`.
pub open spec fn pip_normalized(name: Seq<char>, req: Seq<char>) -> bool {
    let l = lowercase(name);
    &&& req.len() == l.len()
    &&& forall|k: int| 0 <= k < l.len() ==> #[trigger] req[k] == if l[k] == '_' {
        '-'
    } else {
        l[k]
    }
}

proof fn lemma_pip_normalized(name: Seq<char>, req: Seq<char>)
    ensures
        pip_normalized(name, req) <==> pip_key(name) == req,
{
    if pip_normalized(name, req) {
        assert(pip_key(name) =~= req);
    }
}

proof fn lemma_pip_index_last(ins: Seq<PackageInput>, n: int, j: int)
    requires
        0 <= j < n <= ins.len(),
        n <= usize::MAX,
        ins[j].pkg_type == PackageType::Pip,
        forall|k: int|
            j < k < n && ins[k].pkg_type == PackageType::Pip ==> pip_key(#[trigger] ins[k].name@) != pip_key(
                ins[j].name@,
            ),
    ensures
        pip_index(ins, n).contains_key(pip_key(ins[j].name@)),
        pip_index(ins, n)[pip_key(ins[j].name@)] == j as usize,
    decreases n,
{
    if n - 1 > j {
        lemma_pip_index_last(ins, n - 1, j);
    }
}

proof fn lemma_pip_index_sound(ins: Seq<PackageInput>, n: int, key: Seq<char>)
    requires
        0 <= n <= ins.len(),
        n <= usize::MAX,
        pip_index(ins, n).contains_key(key),
    ensures
        pip_index(ins, n)[key] < n,
        ins[pip_index(ins, n)[key] as int].pkg_type == PackageType::Pip,
        pip_key(ins[pip_index(ins, n)[key] as int].name@) == key,
    decreases n,
{
    if n > 0 && !(ins[n - 1].pkg_type == PackageType::Pip && pip_key(ins[n - 1].name@) == key) {
        lemma_pip_index_sound(ins, n - 1, key);
    }
}

proof fn lemma_pip_names_contain(m: Map<Seq<char>, usize>, i: int, deps: Seq<Seq<char>>, r: int)
    requires
        0 <= r < deps.len(),
        m.contains_key(deps[r]),
        m[deps[r]] as int != i,
    ensures
        resolve_pip_names(m, i, deps).contains(m[deps[r]]),
    decreases deps.len(),
{
    let prev = resolve_pip_names(m, i, deps.drop_last());
    let res = resolve_pip_names(m, i, deps);
    if r == deps.len() - 1 {
        assert(res[res.len() - 1] == m[deps[r]]);
    } else {
        assert(deps.drop_last()[r] == deps[r]);
        lemma_pip_names_contain(m, i, deps.drop_last(), r);
        let k = choose|k: int| 0 <= k < prev.len() && prev[k] == m[deps[r]];
        assert(res[k] == prev[k]);
    }
}

proof fn lemma_pip_names_sound(m: Map<Seq<char>, usize>, i: int, deps: Seq<Seq<char>>, x: usize)
    requires
        resolve_pip_names(m, i, deps).contains(x),
    ensures
        x as int != i,
        exists|r: int| 0 <= r < deps.len() && m.contains_key(#[trigger] deps[r]) && m[deps[r]] == x,
    decreases deps.len(),
{
    let prev = resolve_pip_names(m, i, deps.drop_last());
    let res = resolve_pip_names(m, i, deps);
    let k = choose|k: int| 0 <= k < res.len() && res[k] == x;
    if k < prev.len() {
        assert(prev[k] == x);
        lemma_pip_names_sound(m, i, deps.drop_last(), x);
        let r = choose|r: int| 0 <= r < deps.drop_last().len() && m.contains_key(#[trigger] deps.drop_last()[r])
            && m[deps.drop_last()[r]] == x;
        assert(deps[r] == deps.drop_last()[r]);
    } else {
        assert(m.contains_key(deps[deps.len() - 1]));
    }
}

/// Law: a requirement that is the name of an installed Python distribution in
/// lowercase, with `_` written as `-`, resolves to the last distribution so
/// named (unless that is the requiring distribution itself); and whatever a
/// requirement resolves to is such a distribution, other than the requiring one.
pub proof fn law_pip_requirements(ins: Seq<PackageInput>, i: int, deps: Seq<Seq<char>>, r: int, j: int, x: usize)
    requires
        ins.len() <= usize::MAX,
    ensures
        0 <= r < deps.len() && 0 <= j < ins.len() && j != i && ins[j].pkg_type == PackageType::Pip
            && pip_normalized(ins[j].name@, deps[r]) && (forall|k: int|
            j < k < ins.len() && ins[k].pkg_type == PackageType::Pip ==> !pip_normalized(
                #[trigger] ins[k].name@,
                deps[r],
            )) ==> resolve_pip_names(pip_index(ins, ins.len() as int), i, deps).contains(j as usize),
        resolve_pip_names(pip_index(ins, ins.len() as int), i, deps).contains(x) ==> {
            &&& x < ins.len()
            &&& x as int != i
            &&& ins[x as int].pkg_type == PackageType::Pip
            &&& exists|q: int| 0 <= q < deps.len() && #[trigger] pip_normalized(ins[x as int].name@, deps[q])
        },
{
    let n = ins.len() as int;
    let idx = pip_index(ins, n);
    if 0 <= r < deps.len() && 0 <= j < ins.len() && j != i && ins[j].pkg_type == PackageType::Pip
        && pip_normalized(ins[j].name@, deps[r]) && (forall|k: int|
        j < k < ins.len() && ins[k].pkg_type == PackageType::Pip ==> !pip_normalized(#[trigger] ins[k].name@, deps[r])) {
        lemma_pip_normalized(ins[j].name@, deps[r]);
        assert forall|k: int|
            j < k < n && ins[k].pkg_type == PackageType::Pip implies pip_key(#[trigger] ins[k].name@) != pip_key(
                ins[j].name@,
            ) by {
            lemma_pip_normalized(ins[k].name@, deps[r]);
        }
        lemma_pip_index_last(ins, n, j);
        lemma_pip_names_contain(idx, i, deps, r);
    }
    if resolve_pip_names(idx, i, deps).contains(x) {
        lemma_pip_names_sound(idx, i, deps, x);
        let q = choose|q: int| 0 <= q < deps.len() && idx.contains_key(#[trigger] deps[q]) && idx[deps[q]] == x;
        lemma_pip_index_sound(ins, n, deps[q]);
        lemma_pip_normalized(ins[x as int].name@, deps[q]);
    }
}

} // verus!
