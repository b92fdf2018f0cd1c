//! Globally installed Bun packages: parsing of `bun -g list` output.
use vstd::prelude::*;
use vstd::string::StringExecFns;
use crate::graph::{PackageInput, PackageType};
use crate::text::{
    chars_of, find_chars, find_seq, last_pos_of, occurs_at, rfind_char, slice_of, string_of, trim,
    trim_chars,
};

verus! {

/// A character of the tree drawing that `bun -g list` puts before each package.
pub open spec fn is_tree_char(c: char) -> bool {
    c == '├' || c == '└' || c == '│' || c == '─' || c == '┬' || c == ' ' || c == '┼'
}

/// `s` without its leading tree-drawing characters.
pub open spec fn strip_tree(s: Seq<char>) -> Seq<char>
    decreases s.len(),
{
    if s.len() > 0 && is_tree_char(s[0]) {
        strip_tree(s.drop_first())
    } else {
        s
    }
}

/// The name and version that a line of `bun -g list` names: the trimmed line
/// without its tree drawing, split at its last `@`, which must not be the
/// first character.
pub open spec fn bun_entry(line: Seq<char>) -> Option<(Seq<char>, Seq<char>)> {
    let c = strip_tree(trim(line));
    let pos = last_pos_of(c, '@');
    if pos > 0 {
        Some((c.take(pos), c.skip(pos + 1)))
    } else {
        None
    }
}

/// The view of an optional pair of strings.
pub open spec fn pair_view(p: Option<(String, String)>) -> Option<(Seq<char>, Seq<char>)> {
    match p {
        Some((a, b)) => Some((a@, b@)),
        None => None,
    }
}

proof fn lemma_strip_tree(s: Seq<char>, i: int)
    requires
        0 <= i <= s.len(),
        forall|k: int| 0 <= k < i ==> is_tree_char(s[k]),
        i == s.len() || !is_tree_char(s[i]),
    ensures
        strip_tree(s) == s.subrange(i, s.len() as int),
    decreases i,
{
    if i > 0 {
        lemma_strip_tree(s.drop_first(), i - 1);
        assert(s.drop_first().subrange(i - 1, s.len() - 1) =~= s.subrange(i, s.len() as int));
    } else {
        assert(s.subrange(0, s.len() as int) =~= s);
    }
}

proof fn lemma_last_pos_of(s: Seq<char>, c: char)
    ensures
        -1 <= last_pos_of(s, c) < s.len(),
        last_pos_of(s, c) >= 0 ==> s[last_pos_of(s, c)] == c,
        forall|k: int| last_pos_of(s, c) < k < s.len() ==> s[k] != c,
    decreases s.len(),
{
    if s.len() > 0 && s.last() != c {
        lemma_last_pos_of(s.drop_last(), c);
        assert forall|k: int| last_pos_of(s, c) < k < s.len() implies s[k] != c by {
            if k < s.len() - 1 {
                assert(s[k] == s.drop_last()[k]);
            }
        }
    }
}

proof fn lemma_strip_tree_props(s: Seq<char>) -> (lo: int)
    ensures
        0 <= lo <= s.len(),
        strip_tree(s) == s.skip(lo),
        forall|k: int| 0 <= k < lo ==> is_tree_char(#[trigger] s[k]),
        lo == s.len() || !is_tree_char(s[lo]),
    decreases s.len(),
{
    if s.len() > 0 && is_tree_char(s[0]) {
        let lo = lemma_strip_tree_props(s.drop_first());
        assert(s.drop_first().skip(lo) =~= s.skip(lo + 1));
        assert forall|k: int| 0 <= k < lo + 1 implies is_tree_char(#[trigger] s[k]) by {
            if k > 0 {
                assert(s[k] == s.drop_first()[k - 1]);
            }
        }
        lo + 1
    } else {
        assert(s.skip(0) =~= s);
        0
    }
}

/// One of the glyphs of the tree drawing of `bun -g list`: `├`, `└`, `│`,
/// `─`, `┬`, `┼` or a space.
pub open spec fn bun_tree_glyph(ch: char) -> bool {
    ch == '├' || ch == '└' || ch == '│' || ch == '─' || ch == '┬' || ch == ' ' || ch == '┼'
}

/// Law: a line of `bun -g list` names a package exactly when, once trimmed
/// and rid of its leading tree drawing (`├`, `└`, `│`, `─`, `┬`, `┼` and
/// spaces), it has an `@` after its first character; the name is what comes
/// before the last `@` and the version what comes after it.
pub proof fn law_bun_entry(line: Seq<char>)
    ensures
        exists|lo: int|
            #![trigger trim(line).skip(lo)]
            {
                &&& 0 <= lo <= trim(line).len()
                &&& forall|k: int|
                    0 <= k < lo ==> bun_tree_glyph(#[trigger] trim(line)[k])
                &&& (lo == trim(line).len() || !bun_tree_glyph(trim(line)[lo]))
                &&& match bun_entry(line) {
                    Some((name, version)) => {
                        &&& name.len() > 0
                        &&& trim(line).skip(lo) == name + seq!['@'] + version
                        &&& forall|k: int| 0 <= k < version.len() ==> version[k] != '@'
                    },
                    None => forall|k: int| 0 < k < trim(line).len() - lo ==> trim(line).skip(lo)[k] != '@',
                }
            },
{
    let t = trim(line);
    let lo = lemma_strip_tree_props(t);
    let c = t.skip(lo);
    lemma_last_pos_of(c, '@');
    let pos = last_pos_of(c, '@');
    if pos > 0 {
        assert(c =~= c.take(pos) + seq!['@'] + c.skip(pos + 1));
        assert forall|k: int| 0 <= k < c.skip(pos + 1).len() implies #[trigger] c.skip(pos + 1)[k] != '@' by {
            assert(c.skip(pos + 1)[k] == c[pos + 1 + k]);
        }
    }
    assert(t.skip(lo) == c);
}

fn is_tree(c: char) -> (res: bool)
    ensures
        res == is_tree_char(c),
{
    c == '├' || c == '└' || c == '│' || c == '─' || c == '┬' || c == ' ' || c == '┼'
}

/// Parses one line of `bun -g list`, e.g. `├── arrpc@3.6.0`, into the package
/// name and version.
pub fn parse_bun_list_line(line: &str) -> (res: Option<(String, String)>)
    ensures
        pair_view(res) == bun_entry(line@),
{
    let t = trim_chars(&chars_of(line));
    let mut lo: usize = 0;
    while lo < t.len() && is_tree(t[lo])
        invariant
            lo <= t@.len(),
            forall|k: int| 0 <= k < lo ==> is_tree_char(t@[k]),
        decreases t.len() - lo,
    {
        lo += 1;
    }
    proof {
        lemma_strip_tree(t@, lo as int);
    }
    let cleaned = slice_of(&t, lo, t.len());
    match rfind_char(&cleaned, '@') {
        Some(pos) => {
            if pos > 0 {
                let name = slice_of(&cleaned, 0, pos);
                let version = slice_of(&cleaned, pos + 1, cleaned.len());
                proof {
                    assert(name@ =~= cleaned@.take(pos as int));
                    assert(version@ =~= cleaned@.skip(pos + 1));
                }
                return Some((string_of(name.as_slice()), string_of(version.as_slice())));
            }
            None
        },
        None => None,
    }
}

/// The installation root that the first line of `bun -g list` names: what
/// stands before ` node_modules`, trimmed, when that is not empty.
pub open spec fn bun_root(header: Seq<char>) -> Option<Seq<char>> {
    match find_seq(header, seq![' ', 'n', 'o', 'd', 'e', '_', 'm', 'o', 'd', 'u', 'l', 'e', 's']) {
        Some(pos) => if trim(header.take(pos)).len() > 0 {
            Some(trim(header.take(pos)))
        } else {
            None
        },
        None => None,
    }
}

/// The view of an optional string.
pub open spec fn opt_string_view(s: Option<String>) -> Option<Seq<char>> {
    match s {
        Some(x) => Some(x@),
        None => None,
    }
}

/// The installation root named by the first line of `bun -g list`, e.g.
/// `/home/u/.bun/install/global node_modules (27)`.
pub fn bun_root_from_header(header: &str) -> (res: Option<String>)
    ensures
        opt_string_view(res) == bun_root(header@),
{
    let h = chars_of(header);
    let pat = vec![' ', 'n', 'o', 'd', 'e', '_', 'm', 'o', 'd', 'u', 'l', 'e', 's'];
    match find_chars(&h, &pat) {
        Some(pos) => {
            proof {
                assert(occurs_at(h@, pat@, pos as int));
            }
            let head = slice_of(&h, 0, pos);
            let cand = trim_chars(&head);
            proof {
                assert(head@ =~= h@.take(pos as int));
            }
            if cand.len() > 0 {
                Some(string_of(cand.as_slice()))
            } else {
                None
            }
        },
        None => None,
    }
}

/// The summary of a global package: its description when that is not empty,
/// else `prefix` followed by its name.
pub open spec fn global_summary(prefix: Seq<char>, name: Seq<char>, description: Option<Seq<char>>) -> Seq<char> {
    match description {
        Some(d) => if d.len() > 0 {
            d
        } else {
            prefix + name
        },
        None => prefix + name,
    }
}

/// `prefix` followed by `name`, unless `description` is a non-empty text.
pub(crate) fn summary_of(prefix: &str, name: &String, description: &Option<String>) -> (res: String)
    ensures
        res@ == global_summary(prefix@, name@, opt_string_view(*description)),
{
    match description {
        Some(d) => if d.as_str().unicode_len() > 0 {
            return d.clone();
        },
        None => {},
    }
    let mut s = String::from_str(prefix);
    s.append(name.as_str());
    s
}

/// The graph input for a globally installed Bun package: release `N/A`,
/// architecture `all`, no dependencies.
pub fn bun_package_input(name: String, version: String, size: u64, description: Option<String>) -> (res:
    PackageInput)
    ensures
        res.name == name,
        res.version == version,
        res.release@ == "N/A"@,
        res.arch@ == "all"@,
        res.installsize == size,
        res.summary@ == global_summary("Globally installed Bun package: "@, name@, opt_string_view(description)),
        res.description@ == match description {
            Some(d) => d@,
            None => Seq::<char>::empty(),
        },
        res.resolved_deps@.len() == 0,
        res.pkg_type == PackageType::Bun,
        res.flatpak_deps@.len() == 0,
{
    let summary = summary_of("Globally installed Bun package: ", &name, &description);
    let description = match description {
        Some(d) => d,
        None => String::new(),
    };
    PackageInput {
        name,
        version,
        release: String::from_str("N/A"),
        arch: String::from_str("all"),
        installsize: size,
        summary,
        description,
        resolved_deps: Vec::new(),
        pkg_type: PackageType::Bun,
        flatpak_deps: Vec::new(),
    }
}

} // verus!
