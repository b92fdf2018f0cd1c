//! Flatpak applications and runtimes: sizes, runtime references, graph inputs.
use vstd::prelude::*;
use vstd::string::StringExecFns;
use crate::bun::opt_string_view;
use crate::graph::{PackageInput, PackageType};
use crate::text::{
    chars_of, contains_chars, contains_seq, is_whitespace, is_ws, lowercase, replace_all,
    replace_chars, slice_of, string_of, to_lowercase,
};

verus! {

/// Whether `c` has the Unicode `Alphabetic` property, as `char::is_alphabetic`
/// decides it.
pub uninterp spec fn alphabetic(c: char) -> bool;

/// `char::is_alphabetic`. Its result depends on `c` alone; the Unicode table
/// behind it is not stated here.
#[verifier::external_body]
pub(crate) fn is_alphabetic(c: char) -> (res: bool)
    ensures
        res == alphabetic(c),
{
    c.is_alphabetic()
}

/// A size text without its spaces (any whitespace, no-break spaces included).
pub open spec fn size_chars(s: Seq<char>) -> Seq<char> {
    s.filter(size_char())
}

/// The characters that a size text keeps.
pub open spec fn size_char() -> spec_fn(char) -> bool {
    |c: char| !is_ws(c) && c != '\u{a0}'
}

/// Index of the first alphabetic character of `s`, or `s.len()`.
pub open spec fn first_alpha(s: Seq<char>) -> int
    decreases s.len(),
{
    if s.len() == 0 {
        0
    } else if alphabetic(s[0]) {
        0
    } else {
        1 + first_alpha(s.drop_first())
    }
}

/// The number of bytes a (lowercase) unit stands for: `gb`/`g`, `mb`/`m`,
/// `kb`/`k` for the binary multiples, anything else for bytes.
pub open spec fn unit_multiplier(unit: Seq<char>) -> u64 {
    if unit == seq!['g', 'b'] || unit == seq!['g'] {
        1073741824
    } else if unit == seq!['m', 'b'] || unit == seq!['m'] {
        1048576
    } else if unit == seq!['k', 'b'] || unit == seq!['k'] {
        1024
    } else {
        1
    }
}

/// The parts of a flatpak size text such as `1.5 GB`: the number before the
/// first alphabetic character and the multiplier of the unit from there on.
/// No alphabetic character: no parts (the size counts as 0).
pub open spec fn size_parts(s: Seq<char>) -> Option<(Seq<char>, u64)> {
    let c = size_chars(s);
    let pos = first_alpha(c);
    if 0 <= pos < c.len() {
        Some((c.take(pos), unit_multiplier(lowercase(c.skip(pos)))))
    } else {
        None
    }
}

proof fn lemma_first_alpha(s: Seq<char>, i: int)
    requires
        0 <= i <= s.len(),
        forall|k: int| 0 <= k < i ==> !alphabetic(s[k]),
        i == s.len() || alphabetic(s[i]),
    ensures
        first_alpha(s) == i,
    decreases i,
{
    if i > 0 {
        lemma_first_alpha(s.drop_first(), i - 1);
    }
}

fn chars_eq(a: &Vec<char>, b: &Vec<char>) -> (res: bool)
    ensures
        res == (a@ == b@),
{
    if a.len() != b.len() {
        return false;
    }
    let mut k: usize = 0;
    while k < a.len()
        invariant
            a@.len() == b@.len(),
            k <= a@.len(),
            forall|m: int| 0 <= m < k ==> a@[m] == b@[m],
        decreases a.len() - k,
    {
        if a[k] != b[k] {
            return false;
        }
        k += 1;
    }
    assert(a@ =~= b@);
    true
}

/// The number and unit multiplier of a flatpak size text (`flatpak list`'s
/// size column); the number is parsed as a float by the caller.
pub fn flatpak_size_parts(size_str: &str) -> (res: Option<(String, u64)>)
    ensures
        match res {
            Some((num, mult)) => size_parts(size_str@) == Some((num@, mult)),
            None => size_parts(size_str@) is None,
        },
{
    let s = chars_of(size_str);
    let ghost pred = size_char();
    let mut cleaned: Vec<char> = Vec::new();
    let mut k: usize = 0;
    proof {
        assert(s@.take(0) =~= Seq::<char>::empty());
        Seq::<char>::empty().lemma_filter_len(pred);
        assert(s@.take(0).filter(pred) =~= Seq::<char>::empty());
    }
    while k < s.len()
        invariant
            k <= s@.len(),
            pred == size_char(),
            cleaned@ == s@.take(k as int).filter(pred),
        decreases s.len() - k,
    {
        let c = s[k];
        proof {
            assert(s@.take(k + 1) =~= s@.take(k as int).push(c));
            s@.take(k as int).lemma_filter_push(c, pred);
        }
        if !is_whitespace(c) && c != '\u{a0}' {
            cleaned.push(c);
        }
        k += 1;
    }
    proof {
        assert(s@.take(s@.len() as int) =~= s@);
    }
    let mut pos: usize = 0;
    while pos < cleaned.len() && !is_alphabetic(cleaned[pos])
        invariant
            pos <= cleaned@.len(),
            forall|m: int| 0 <= m < pos ==> !alphabetic(cleaned@[m]),
        decreases cleaned.len() - pos,
    {
        pos += 1;
    }
    proof {
        lemma_first_alpha(cleaned@, pos as int);
    }
    if pos == cleaned.len() {
        return None;
    }
    let num = slice_of(&cleaned, 0, pos);
    let unit = slice_of(&cleaned, pos, cleaned.len());
    let lower = chars_of(to_lowercase(string_of(unit.as_slice()).as_str()).as_str());
    proof {
        assert(num@ =~= cleaned@.take(pos as int));
        assert(unit@ =~= cleaned@.skip(pos as int));
    }
    let gb = vec!['g', 'b'];
    let g = vec!['g'];
    let mb = vec!['m', 'b'];
    let m = vec!['m'];
    let kb = vec!['k', 'b'];
    let k = vec!['k'];
    assert(gb@ == seq!['g', 'b'] && g@ == seq!['g'] && mb@ == seq!['m', 'b']);
    assert(m@ == seq!['m'] && kb@ == seq!['k', 'b'] && k@ == seq!['k']);
    let mult: u64 = if chars_eq(&lower, &gb) || chars_eq(&lower, &g) {
        1073741824
    } else if chars_eq(&lower, &mb) || chars_eq(&lower, &m) {
        1048576
    } else if chars_eq(&lower, &kb) || chars_eq(&lower, &k) {
        1024
    } else {
        1
    };
    Some((string_of(num.as_slice()), mult))
}

proof fn lemma_first_alpha_props(s: Seq<char>)
    ensures
        0 <= first_alpha(s) <= s.len(),
        forall|k: int| 0 <= k < first_alpha(s) ==> !alphabetic(#[trigger] s[k]),
        first_alpha(s) < s.len() ==> alphabetic(s[first_alpha(s)]),
    decreases s.len(),
{
    if s.len() > 0 && !alphabetic(s[0]) {
        lemma_first_alpha_props(s.drop_first());
        assert forall|k: int| 0 <= k < first_alpha(s) implies !alphabetic(#[trigger] s[k]) by {
            if k > 0 {
                assert(s[k] == s.drop_first()[k - 1]);
            }
        }
    }
}

/// Law: a flatpak size text, once its spaces (no-break spaces included) are
/// dropped (`size_chars`), splits at its first alphabetic character: the number is what
/// comes before it, and the unit from there on, in lowercase, gives the
/// multiplier: 1024^3 for `gb` or `g`, 1024^2 for `mb` or `m`, 1024 for `kb`
/// or `k`, 1 for any other unit. A text without an alphabetic character has
/// no parts.
pub proof fn law_size_parts(s: Seq<char>)
    ensures
        ({
            let c = size_chars(s);
            match size_parts(s) {
                Some((num, m)) => {
                    let unit = lowercase(c.skip(num.len() as int));
                    &&& num.len() < c.len()
                    &&& num == c.take(num.len() as int)
                    &&& forall|k: int| 0 <= k < num.len() ==> !alphabetic(#[trigger] num[k])
                    &&& alphabetic(c[num.len() as int])
                    &&& (unit == seq!['g', 'b'] || unit == seq!['g']) ==> m == 1073741824
                    &&& (unit == seq!['m', 'b'] || unit == seq!['m']) ==> m == 1048576
                    &&& (unit == seq!['k', 'b'] || unit == seq!['k']) ==> m == 1024
                    &&& !(unit == seq!['g', 'b'] || unit == seq!['g'] || unit == seq!['m', 'b'] || unit == seq!['m']
                        || unit == seq!['k', 'b'] || unit == seq!['k']) ==> m == 1
                },
                None => forall|k: int| 0 <= k < c.len() ==> !alphabetic(#[trigger] c[k]),
            }
        }),
{
    let c = size_chars(s);
    lemma_first_alpha_props(c);
    let pos = first_alpha(c);
    if pos < c.len() {
        assert(c.take(pos).len() == pos);
        assert forall|k: int| 0 <= k < pos implies !alphabetic(#[trigger] c.take(pos)[k]) by {
            assert(c.take(pos)[k] == c[k]);
        }
        let num = c.take(pos);
        let m = unit_multiplier(lowercase(c.skip(pos)));
        assert(size_parts(s) == Some((num, m)));
        assert(num.len() == pos);
        assert(num == c.take(num.len() as int));
        assert(alphabetic(c[num.len() as int]));
        assert(lowercase(c.skip(num.len() as int)) == lowercase(c.skip(pos)));
        let gb = seq!['g', 'b'];
        let g = seq!['g'];
        let mb = seq!['m', 'b'];
        let m1 = seq!['m'];
        let kb = seq!['k', 'b'];
        let k1 = seq!['k'];
        assert(gb[0] == 'g' && g[0] == 'g' && mb[0] == 'm' && m1[0] == 'm' && kb[0] == 'k' && k1[0] == 'k');
        assert(gb.len() == 2 && mb.len() == 2 && kb.len() == 2 && g.len() == 1 && m1.len() == 1 && k1.len() == 1);
        assert(mb != gb && mb != g && m1 != gb && m1 != g);
        assert(kb != gb && kb != g && k1 != gb && k1 != g && kb != mb && kb != m1 && k1 != mb && k1 != m1);
    } else {
        assert(size_parts(s) is None);
    }
}

/// The runtime references of a flatpak application: its runtime, and for a
/// `.Platform` runtime also the matching `.Sdk`.
pub open spec fn runtime_deps(runtime: Option<Seq<char>>) -> Seq<Seq<char>> {
    match runtime {
        Some(rt) => if rt.len() == 0 {
            seq![]
        } else if contains_seq(rt, seq!['.', 'P', 'l', 'a', 't', 'f', 'o', 'r', 'm']) {
            seq![rt, replace_all(rt, seq!['.', 'P', 'l', 'a', 't', 'f', 'o', 'r', 'm'], seq!['.', 'S', 'd', 'k'])]
        } else {
            seq![rt]
        },
        None => seq![],
    }
}

/// The character sequences of a list of strings.
pub open spec fn strings_of(v: Seq<String>) -> Seq<Seq<char>> {
    v.map_values(|s: String| s@)
}

/// The runtime references of a flatpak application with runtime `runtime`.
pub fn flatpak_runtime_deps(runtime: &Option<String>) -> (res: Vec<String>)
    ensures
        strings_of(res@) == runtime_deps(opt_string_view(*runtime)),
{
    let mut deps: Vec<String> = Vec::new();
    if let Some(rt) = runtime {
        let r = chars_of(rt.as_str());
        if r.len() > 0 {
            deps.push(rt.clone());
            let platform = vec!['.', 'P', 'l', 'a', 't', 'f', 'o', 'r', 'm'];
            if contains_chars(&r, &platform) {
                let sdk = replace_chars(&r, &platform, &vec!['.', 'S', 'd', 'k']);
                deps.push(string_of(sdk.as_slice()));
                assert(strings_of(deps@) =~= seq![rt@, sdk@]);
            } else {
                assert(strings_of(deps@) =~= seq![rt@]);
            }
        } else {
            assert(strings_of(deps@) =~= Seq::<Seq<char>>::empty());
        }
    } else {
        assert(strings_of(deps@) =~= Seq::<Seq<char>>::empty());
    }
    deps
}

/// The text of an optional string, or `default`.
pub open spec fn or_default(s: Option<String>, default: Seq<char>) -> Seq<char> {
    match s {
        Some(x) => x@,
        None => default,
    }
}

fn unwrap_or_str(s: Option<String>, default: &str) -> (res: String)
    ensures
        res@ == or_default(s, default@),
{
    match s {
        Some(x) => x,
        None => String::from_str(default),
    }
}

/// The graph input for a flatpak application as `flatpak list` describes it:
/// missing fields become `unknown` (version, architecture), `stable`
/// (branch), `Flatpak application` (name) or empty (description); the
/// runtime becomes the unresolved dependencies.
pub fn flatpak_package_input(
    application_id: String,
    name: Option<String>,
    version: Option<String>,
    branch: Option<String>,
    arch: Option<String>,
    size: u64,
    description: Option<String>,
    runtime: Option<String>,
) -> (res: PackageInput)
    ensures
        res.name == application_id,
        res.version@ == or_default(version, "unknown"@),
        res.release@ == or_default(branch, "stable"@),
        res.arch@ == or_default(arch, "unknown"@),
        res.installsize == size,
        res.summary@ == or_default(name, "Flatpak application"@),
        res.description@ == or_default(description, Seq::empty()),
        res.resolved_deps@.len() == 0,
        res.pkg_type == PackageType::Flatpak,
        strings_of(res.flatpak_deps@) == runtime_deps(opt_string_view(runtime)),
{
    let flatpak_deps = flatpak_runtime_deps(&runtime);
    let description = match description {
        Some(d) => d,
        None => String::new(),
    };
    PackageInput {
        name: application_id,
        version: unwrap_or_str(version, "unknown"),
        release: unwrap_or_str(branch, "stable"),
        arch: unwrap_or_str(arch, "unknown"),
        installsize: size,
        summary: unwrap_or_str(name, "Flatpak application"),
        description,
        resolved_deps: Vec::new(),
        pkg_type: PackageType::Flatpak,
        flatpak_deps,
    }
}

} // verus!
