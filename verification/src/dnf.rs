//! Parsing of `dnf5 repoquery` output and resolution of RPM capabilities.
use vstd::prelude::*;
use vstd::string::StringExecFns;
use vstd::hash_map::StringHashMap;
use crate::graph::{PackageInput, PackageType};
use crate::text::{
    chars_of, find_chars, lemma_first_line_starts, lemma_lines_concat, lemma_trim_idempotent, lemma_trim_shape,
    lines, lines_of, matches_at, occurs_at, parse_u64,
    parse_u64_chars, slice_of, starts_with, string_of, trim, trim_chars,
};

verus! {

/// One package as `dnf5 repoquery` describes it.
#[derive(Debug, Clone)]
pub struct RawPackage {
    pub name: String,
    pub version: String,
    pub release: String,
    pub arch: String,
    pub installsize: u64,
    pub summary: String,
    pub description: String,
    pub requires: Vec<String>,
    pub provides: Vec<String>,
}

/// The model of a `RawPackage`: its strings as character sequences.
pub struct RawPackageView {
    pub name: Seq<char>,
    pub version: Seq<char>,
    pub release: Seq<char>,
    pub arch: Seq<char>,
    pub installsize: u64,
    pub summary: Seq<char>,
    pub description: Seq<char>,
    pub requires: Seq<Seq<char>>,
    pub provides: Seq<Seq<char>>,
}

/// The character sequences of a list of strings.
pub open spec fn strings_view(v: Seq<String>) -> Seq<Seq<char>> {
    v.map_values(|s: String| s@)
}

impl View for RawPackage {
    type V = RawPackageView;

    open spec fn view(&self) -> RawPackageView {
        RawPackageView {
            name: self.name@,
            version: self.version@,
            release: self.release@,
            arch: self.arch@,
            installsize: self.installsize,
            summary: self.summary@,
            description: self.description@,
            requires: strings_view(self.requires@),
            provides: strings_view(self.provides@),
        }
    }
}

/// The section of a package record that the parser is in.
#[derive(Debug, Clone, Copy, PartialEq, Eq, Structural)]
pub enum ParseState {
    Idle,
    Pkg,
    Ver,
    Rel,
    Arch,
    Size,
    Sum,
    Desc,
    Req,
    Prov,
}

/// The parser's state after some lines: the packages finished so far, the one
/// being read, and the current section.
pub struct DnfParse {
    pub packages: Seq<RawPackageView>,
    pub current: Option<RawPackageView>,
    pub state: ParseState,
}

/// A fresh package record named `name`.
pub open spec fn new_record(name: Seq<char>) -> RawPackageView {
    RawPackageView {
        name,
        version: seq![],
        release: seq![],
        arch: seq![],
        installsize: 0,
        summary: seq![],
        description: seq![],
        requires: seq![],
        provides: seq![],
    }
}

/// What one line of a record's body adds to `p` in section `state`: a
/// description line (joined to the previous ones by `\n`), or a trimmed,
/// non-empty requirement or capability.
pub open spec fn body_line(p: RawPackageView, state: ParseState, line: Seq<char>) -> RawPackageView {
    match state {
        ParseState::Desc => RawPackageView {
            description: if p.description.len() > 0 {
                p.description.push('\n') + line
            } else {
                p.description + line
            },
            ..p
        },
        ParseState::Req => if trim(line).len() > 0 {
            RawPackageView { requires: p.requires.push(trim(line)), ..p }
        } else {
            p
        },
        ParseState::Prov => if trim(line).len() > 0 {
            RawPackageView { provides: p.provides.push(trim(line)), ..p }
        } else {
            p
        },
        _ => p,
    }
}

/// The parser's transition on one line: `=PKG=` starts a record (finishing the
/// previous one); within a record `=VER=`, `=REL=`, `=ARCH=`, `=SIZE=`, `=SUM=`
/// set a field from the rest of the line (a size that does not parse is 0);
/// `=DESC=`, `=REQ=`, `=PROV=`, `=END=` switch section; other lines go to the
/// current section. Lines before the first record are ignored.
pub open spec fn dnf_step(st: DnfParse, line: Seq<char>) -> DnfParse {
    if starts_with(line, seq!['=', 'P', 'K', 'G', '=']) {
        DnfParse {
            packages: match st.current {
                Some(p) => st.packages.push(p),
                None => st.packages,
            },
            current: Some(new_record(line.skip(5))),
            state: ParseState::Pkg,
        }
    } else {
        match st.current {
            None => st,
            Some(p) => if starts_with(line, seq!['=', 'V', 'E', 'R', '=']) {
                DnfParse {
                    current: Some(RawPackageView { version: line.skip(5), ..p }),
                    state: ParseState::Ver,
                    ..st
                }
            } else if starts_with(line, seq!['=', 'R', 'E', 'L', '=']) {
                DnfParse {
                    current: Some(RawPackageView { release: line.skip(5), ..p }),
                    state: ParseState::Rel,
                    ..st
                }
            } else if starts_with(line, seq!['=', 'A', 'R', 'C', 'H', '=']) {
                DnfParse {
                    current: Some(RawPackageView { arch: line.skip(6), ..p }),
                    state: ParseState::Arch,
                    ..st
                }
            } else if starts_with(line, seq!['=', 'S', 'I', 'Z', 'E', '=']) {
                DnfParse {
                    current: Some(
                        RawPackageView {
                            installsize: match parse_u64(line.skip(6)) {
                                Some(v) => v,
                                None => 0,
                            },
                            ..p
                        },
                    ),
                    state: ParseState::Size,
                    ..st
                }
            } else if starts_with(line, seq!['=', 'S', 'U', 'M', '=']) {
                DnfParse {
                    current: Some(RawPackageView { summary: line.skip(5), ..p }),
                    state: ParseState::Sum,
                    ..st
                }
            } else if line == seq!['=', 'D', 'E', 'S', 'C', '='] {
                DnfParse { state: ParseState::Desc, ..st }
            } else if line == seq!['=', 'R', 'E', 'Q', '='] {
                DnfParse { state: ParseState::Req, ..st }
            } else if line == seq!['=', 'P', 'R', 'O', 'V', '='] {
                DnfParse { state: ParseState::Prov, ..st }
            } else if line == seq!['=', 'E', 'N', 'D', '='] {
                DnfParse { state: ParseState::Idle, ..st }
            } else {
                DnfParse { current: Some(body_line(p, st.state, line)), ..st }
            },
        }
    }
}

/// The parser's state after `ls`, from an empty start.
pub open spec fn dnf_run(ls: Seq<Seq<char>>) -> DnfParse
    decreases ls.len(),
{
    if ls.len() == 0 {
        DnfParse { packages: seq![], current: None, state: ParseState::Idle }
    } else {
        dnf_step(dnf_run(ls.drop_last()), ls.last())
    }
}

/// The packages that the lines `ls` describe, the last record included.
pub open spec fn dnf_packages(ls: Seq<Seq<char>>) -> Seq<RawPackageView> {
    let st = dnf_run(ls);
    match st.current {
        Some(p) => st.packages.push(p),
        None => st.packages,
    }
}

/// The models of a list of packages.
pub open spec fn raw_views(v: Seq<RawPackage>) -> Seq<RawPackageView> {
    v.map_values(|p: RawPackage| p@)
}

/// The model of an optional package.
pub open spec fn opt_view(o: Option<RawPackage>) -> Option<RawPackageView> {
    match o {
        Some(p) => Some(p@),
        None => None,
    }
}

/// The characters `v[k..]` as a `String`.
fn tail_string(v: &Vec<char>, k: usize) -> (res: String)
    requires
        k <= v.len(),
    ensures
        res@ == v@.skip(k as int),
{
    let t = slice_of(v, k, v.len());
    string_of(t.as_slice())
}

/// Adds one line of a record's body to `pkg`.
fn apply_body_line(pkg: &mut RawPackage, state: ParseState, line: &Vec<char>)
    ensures
        final(pkg)@ == body_line(old(pkg)@, state, line@),
{
    match state {
        ParseState::Desc => {
            let s = string_of(line.as_slice());
            let ghost d0 = pkg.description@;
            proof {
                reveal_strlit("\n");
            }
            if pkg.description.as_str().unicode_len() > 0 {
                pkg.description.append("\n");
                assert(pkg.description@ =~= d0.push('\n'));
            }
            pkg.description.append(s.as_str());
        },
        ParseState::Req => {
            let t = trim_chars(line);
            if t.len() > 0 {
                let ghost old_req = pkg.requires@;
                pkg.requires.push(string_of(t.as_slice()));
                proof {
                    assert(strings_view(pkg.requires@) =~= strings_view(old_req).push(t@));
                }
            }
        },
        ParseState::Prov => {
            let t = trim_chars(line);
            if t.len() > 0 {
                let ghost old_prov = pkg.provides@;
                pkg.provides.push(string_of(t.as_slice()));
                proof {
                    assert(strings_view(pkg.provides@) =~= strings_view(old_prov).push(t@));
                }
            }
        },
        _ => {},
    }
}

/// Whether `line` is exactly `pat`.
fn line_is(line: &Vec<char>, pat: &Vec<char>) -> (res: bool)
    ensures
        res == (line@ == pat@),
{
    if line.len() != pat.len() {
        return false;
    }
    let r = matches_at(line, pat, 0);
    proof {
        if r {
            assert(line@.subrange(0, pat@.len() as int) =~= line@);
        } else {
            assert(line@.subrange(0, pat@.len() as int) =~= line@);
        }
    }
    r
}

/// The parser's transition on one line.
fn step(
    packages: &mut Vec<RawPackage>,
    current: &mut Option<RawPackage>,
    state: &mut ParseState,
    line: &Vec<char>,
)
    ensures
        (DnfParse { packages: raw_views(final(packages)@), current: opt_view(*final(current)), state: *final(state) })
            == dnf_step(
            DnfParse { packages: raw_views(old(packages)@), current: opt_view(*old(current)), state: *old(state) },
            line@,
        ),
{
    let ghost old_st = DnfParse { packages: raw_views(packages@), current: opt_view(*current), state: *state };
    if matches_at(line, &vec!['=', 'P', 'K', 'G', '='], 0) {
        let ghost old_pkgs = packages@;
        match current.take() {
            Some(p) => {
                packages.push(p);
                proof {
                    assert(raw_views(packages@) =~= raw_views(old_pkgs).push(p@));
                }
            },
            None => {},
        }
        let name = tail_string(line, 5);
        *current = Some(
            RawPackage {
                name,
                version: String::new(),
                release: String::new(),
                arch: String::new(),
                installsize: 0,
                summary: String::new(),
                description: String::new(),
                requires: Vec::new(),
                provides: Vec::new(),
            },
        );
        proof {
            assert(strings_view(Seq::<String>::empty()) =~= Seq::<Seq<char>>::empty());
            assert(opt_view(*current) == Some(new_record(line@.skip(5))));
        }
        *state = ParseState::Pkg;
        return ;
    }
    let mut pkg = match current.take() {
        Some(p) => p,
        None => {
            return ;
        },
    };
    if matches_at(line, &vec!['=', 'V', 'E', 'R', '='], 0) {
        pkg.version = tail_string(line, 5);
        *state = ParseState::Ver;
    } else if matches_at(line, &vec!['=', 'R', 'E', 'L', '='], 0) {
        pkg.release = tail_string(line, 5);
        *state = ParseState::Rel;
    } else if matches_at(line, &vec!['=', 'A', 'R', 'C', 'H', '='], 0) {
        pkg.arch = tail_string(line, 6);
        *state = ParseState::Arch;
    } else if matches_at(line, &vec!['=', 'S', 'I', 'Z', 'E', '='], 0) {
        let digits = slice_of(line, 6, line.len());
        pkg.installsize = match parse_u64_chars(&digits) {
            Some(v) => v,
            None => 0,
        };
        *state = ParseState::Size;
    } else if matches_at(line, &vec!['=', 'S', 'U', 'M', '='], 0) {
        pkg.summary = tail_string(line, 5);
        *state = ParseState::Sum;
    } else if line_is(line, &vec!['=', 'D', 'E', 'S', 'C', '=']) {
        *state = ParseState::Desc;
    } else if line_is(line, &vec!['=', 'R', 'E', 'Q', '=']) {
        *state = ParseState::Req;
    } else if line_is(line, &vec!['=', 'P', 'R', 'O', 'V', '=']) {
        *state = ParseState::Prov;
    } else if line_is(line, &vec!['=', 'E', 'N', 'D', '=']) {
        *state = ParseState::Idle;
    } else {
        apply_body_line(&mut pkg, *state, line);
    }
    *current = Some(pkg);
}

/// Parses the output of `dnf5 repoquery` in the record format that
/// `load_installed_packages` requests (`=PKG=`, `=VER=`, ..., `=END=` lines).
pub fn parse_dnf_output(stdout: &str) -> (res: Result<Vec<RawPackage>, String>)
    ensures
        res matches Ok(pkgs) && raw_views(pkgs@) == dnf_packages(lines_of(stdout@)),
{
    let text = chars_of(stdout);
    let ls = lines(&text);
    let ghost lv = ls@.map_values(|l: Vec<char>| l@);
    let mut packages: Vec<RawPackage> = Vec::new();
    let mut current: Option<RawPackage> = None;
    let mut state = ParseState::Idle;
    let mut i: usize = 0;
    proof {
        assert(lv.take(0) =~= Seq::<Seq<char>>::empty());
        assert(raw_views(packages@) =~= Seq::<RawPackageView>::empty());
    }
    while i < ls.len()
        invariant
            i <= ls.len(),
            lv == ls@.map_values(|l: Vec<char>| l@),
            (DnfParse { packages: raw_views(packages@), current: opt_view(current), state }) == dnf_run(
                lv.take(i as int),
            ),
        decreases ls.len() - i,
    {
        step(&mut packages, &mut current, &mut state, &ls[i]);
        proof {
            assert(lv.take(i + 1).drop_last() =~= lv.take(i as int));
            assert(lv.take(i + 1).last() == ls@[i as int]@);
        }
        i += 1;
    }
    proof {
        assert(lv.take(ls.len() as int) =~= lv);
    }
    let ghost before = packages@;
    match current {
        Some(pkg) => {
            packages.push(pkg);
            proof {
                assert(raw_views(packages@) =~= raw_views(before).push(pkg@));
            }
        },
        None => {},
    }
    Ok(packages)
}

// ---------------------------------------------------------------------------
// Laws of the record parser
// ---------------------------------------------------------------------------

/// The parser's state before any line.
pub open spec fn empty_parse() -> DnfParse {
    DnfParse { packages: seq![], current: None, state: ParseState::Idle }
}

/// The parser's state after the lines `ls`, from state `st`.
pub open spec fn run_from(st: DnfParse, ls: Seq<Seq<char>>) -> DnfParse
    decreases ls.len(),
{
    if ls.len() == 0 {
        st
    } else {
        dnf_step(run_from(st, ls.drop_last()), ls.last())
    }
}

/// `st` with the packages `pre` finished before its own.
pub open spec fn shifted(st: DnfParse, pre: Seq<RawPackageView>) -> DnfParse {
    DnfParse { packages: pre + st.packages, ..st }
}

/// The packages of `st`, the record being read included.
pub open spec fn finished(st: DnfParse) -> Seq<RawPackageView> {
    match st.current {
        Some(p) => st.packages.push(p),
        None => st.packages,
    }
}

proof fn lemma_run_empty(ls: Seq<Seq<char>>)
    ensures
        dnf_run(ls) == run_from(empty_parse(), ls),
    decreases ls.len(),
{
    if ls.len() > 0 {
        lemma_run_empty(ls.drop_last());
    }
}

proof fn lemma_run_concat(st: DnfParse, l1: Seq<Seq<char>>, l2: Seq<Seq<char>>)
    ensures
        run_from(st, l1 + l2) == run_from(run_from(st, l1), l2),
    decreases l2.len(),
{
    if l2.len() == 0 {
        assert(l1 + l2 =~= l1);
    } else {
        lemma_run_concat(st, l1, l2.drop_last());
        assert((l1 + l2).drop_last() =~= l1 + l2.drop_last());
        assert((l1 + l2).last() == l2.last());
    }
}

proof fn lemma_step_shift(st: DnfParse, pre: Seq<RawPackageView>, line: Seq<char>)
    ensures
        dnf_step(shifted(st, pre), line) == shifted(dnf_step(st, line), pre),
{
    if starts_with(line, seq!['=', 'P', 'K', 'G', '=']) {
        match st.current {
            Some(p) => {
                assert((pre + st.packages).push(p) =~= pre + st.packages.push(p));
            },
            None => {},
        }
    }
}

proof fn lemma_run_shift(st: DnfParse, pre: Seq<RawPackageView>, ls: Seq<Seq<char>>)
    ensures
        run_from(shifted(st, pre), ls) == shifted(run_from(st, ls), pre),
    decreases ls.len(),
{
    if ls.len() > 0 {
        lemma_run_shift(st, pre, ls.drop_last());
        lemma_step_shift(run_from(st, ls.drop_last()), pre, ls.last());
    }
}

/// From any state, lines that start a record leave the packages finished
/// before them, followed by what those lines alone describe.
proof fn lemma_run_from_record(st: DnfParse, ls: Seq<Seq<char>>)
    requires
        ls.len() > 0,
        starts_with(ls[0], seq!['=', 'P', 'K', 'G', '=']),
    ensures
        run_from(st, ls) == shifted(run_from(empty_parse(), ls), finished(st)),
{
    let first = seq![ls[0]];
    let rest = ls.drop_first();
    assert(ls =~= first + rest);
    lemma_run_concat(st, first, rest);
    lemma_run_concat(empty_parse(), first, rest);
    assert(first.drop_last() =~= Seq::<Seq<char>>::empty());
    assert(first.last() == ls[0]);
    assert(run_from(empty_parse(), first.drop_last()) == empty_parse());
    assert(run_from(st, first.drop_last()) == st);
    let e1 = run_from(empty_parse(), first);
    assert(e1 == dnf_step(empty_parse(), ls[0]));
    assert(e1.packages =~= Seq::<RawPackageView>::empty());
    assert(run_from(st, first) == dnf_step(st, ls[0]));
    assert(run_from(st, first) == shifted(e1, finished(st))) by {
        assert(finished(st) + e1.packages =~= finished(st));
    }
    lemma_run_shift(e1, finished(st), rest);
}

/// Law: parsing two outputs joined at a record boundary (the first empty or
/// ending with a line break, the second starting with `=PKG=`) gives the
/// packages of the first followed by those of the second.
pub proof fn law_dnf_parse_concat(a: Seq<char>, b: Seq<char>)
    requires
        a.len() == 0 || a.last() == '\n',
        starts_with(b, seq!['=', 'P', 'K', 'G', '=']),
    ensures
        dnf_packages(lines_of(a + b)) == dnf_packages(lines_of(a)) + dnf_packages(lines_of(b)),
{
    let pkg = seq!['=', 'P', 'K', 'G', '='];
    lemma_lines_concat(a, b);
    lemma_first_line_starts(b, pkg);
    let la = lines_of(a);
    let lb = lines_of(b);
    lemma_run_empty(la + lb);
    lemma_run_empty(la);
    lemma_run_empty(lb);
    lemma_run_concat(empty_parse(), la, lb);
    lemma_run_from_record(dnf_run(la), lb);
    let r = dnf_run(lb);
    let pre = finished(dnf_run(la));
    match r.current {
        Some(p) => {
            assert((pre + r.packages).push(p) =~= pre + r.packages.push(p));
        },
        None => {},
    }
}

/// `s` is empty or does not start with `=`: it cannot be taken for a
/// record marker.
pub open spec fn plain_line(s: Seq<char>) -> bool {
    s.len() == 0 || s[0] != '='
}

proof fn lemma_run_push(ls: Seq<Seq<char>>, l: Seq<char>)
    ensures
        dnf_run(ls.push(l)) == dnf_step(dnf_run(ls), l),
{
    assert(ls.push(l).drop_last() =~= ls);
}

/// Law: the record
/// `=PKG=name`, `=VER=version`, `=REL=release`, `=ARCH=arch`, `=SUM=summary`,
/// `=DESC=`, a description line, `=REQ=`, a requirement line, `=PROV=`, a
/// capability line, `=END=`
/// parses to one package with those fields: the description line as the
/// description, and the requirement and capability trimmed (left out when
/// blank); its size is 0 without a `=SIZE=` line.
pub proof fn law_dnf_record(
    name: Seq<char>,
    version: Seq<char>,
    release: Seq<char>,
    arch: Seq<char>,
    summary: Seq<char>,
    desc: Seq<char>,
    req: Seq<char>,
    prov: Seq<char>,
)
    requires
        plain_line(desc),
        plain_line(req),
        plain_line(prov),
    ensures
        dnf_packages(
            seq![
                seq!['=', 'P', 'K', 'G', '='] + name,
                seq!['=', 'V', 'E', 'R', '='] + version,
                seq!['=', 'R', 'E', 'L', '='] + release,
                seq!['=', 'A', 'R', 'C', 'H', '='] + arch,
                seq!['=', 'S', 'U', 'M', '='] + summary,
                seq!['=', 'D', 'E', 'S', 'C', '='],
                desc,
                seq!['=', 'R', 'E', 'Q', '='],
                req,
                seq!['=', 'P', 'R', 'O', 'V', '='],
                prov,
                seq!['=', 'E', 'N', 'D', '='],
            ],
        ) == seq![
            RawPackageView {
                name,
                version,
                release,
                arch,
                installsize: 0,
                summary,
                description: desc,
                requires: if trim(req).len() > 0 {
                    seq![trim(req)]
                } else {
                    seq![]
                },
                provides: if trim(prov).len() > 0 {
                    seq![trim(prov)]
                } else {
                    seq![]
                },
            },
        ],
{
    let pkg = seq!['=', 'P', 'K', 'G', '='];
    let l0 = pkg + name;
    let l1 = seq!['=', 'V', 'E', 'R', '='] + version;
    let l2 = seq!['=', 'R', 'E', 'L', '='] + release;
    let l3 = seq!['=', 'A', 'R', 'C', 'H', '='] + arch;
    let l4 = seq!['=', 'S', 'U', 'M', '='] + summary;
    let l5 = seq!['=', 'D', 'E', 'S', 'C', '='];
    let l7 = seq!['=', 'R', 'E', 'Q', '='];
    let l9 = seq!['=', 'P', 'R', 'O', 'V', '='];
    let l11 = seq!['=', 'E', 'N', 'D', '='];
    // Which markers each line starts with.
    assert(l0.subrange(0, 5) =~= pkg);
    assert(l0.skip(5) =~= name);
    assert(l1.subrange(0, 5) =~= seq!['=', 'V', 'E', 'R', '='] && l1.skip(5) =~= version);
    assert(l2.subrange(0, 5) =~= seq!['=', 'R', 'E', 'L', '='] && l2.skip(5) =~= release);
    assert(l3.subrange(0, 6) =~= seq!['=', 'A', 'R', 'C', 'H', '='] && l3.skip(6) =~= arch);
    assert(l4.subrange(0, 5) =~= seq!['=', 'S', 'U', 'M', '='] && l4.skip(5) =~= summary);
    assert(l1[1] == 'V' && l2[1] == 'R' && l3[1] == 'A' && l4[1] == 'S' && l5[1] == 'D' && l7[1] == 'R');
    assert(l9[1] == 'P' && l11[1] == 'E' && l2[2] == 'E' && l4[2] == 'U' && l9[2] == 'R' && l7[2] == 'E');
    assert(l5[2] == 'E' && l11[2] == 'N' && l3[2] == 'R' && l5[0] == '=' && l7[3] == 'Q' && l2[3] == 'L');
    assert(!starts_with(l1, pkg) && !starts_with(l2, pkg) && !starts_with(l3, pkg) && !starts_with(l4, pkg));
    assert(!starts_with(l5, pkg) && !starts_with(l7, pkg) && !starts_with(l9, pkg) && !starts_with(l11, pkg));
    assert(!starts_with(l2, seq!['=', 'V', 'E', 'R', '=']) && !starts_with(l3, seq!['=', 'V', 'E', 'R', '=']));
    assert(!starts_with(l4, seq!['=', 'V', 'E', 'R', '=']) && !starts_with(l3, seq!['=', 'R', 'E', 'L', '=']));
    assert(!starts_with(l4, seq!['=', 'R', 'E', 'L', '=']) && !starts_with(l4, seq!['=', 'A', 'R', 'C', 'H', '=']));
    assert(!starts_with(l4, seq!['=', 'S', 'I', 'Z', 'E', '=']));
    assert(!starts_with(l5, seq!['=', 'V', 'E', 'R', '=']) && !starts_with(l5, seq!['=', 'R', 'E', 'L', '=']));
    assert(!starts_with(l5, seq!['=', 'A', 'R', 'C', 'H', '=']) && !starts_with(l5, seq!['=', 'S', 'I', 'Z', 'E', '=']));
    assert(!starts_with(l5, seq!['=', 'S', 'U', 'M', '=']));
    assert(!starts_with(l7, seq!['=', 'V', 'E', 'R', '=']) && !starts_with(l7, seq!['=', 'R', 'E', 'L', '=']));
    assert(!starts_with(l7, seq!['=', 'A', 'R', 'C', 'H', '=']) && !starts_with(l7, seq!['=', 'S', 'I', 'Z', 'E', '=']));
    assert(!starts_with(l7, seq!['=', 'S', 'U', 'M', '=']) && l7 != l5);
    assert(!starts_with(l9, seq!['=', 'V', 'E', 'R', '=']) && !starts_with(l9, seq!['=', 'R', 'E', 'L', '=']));
    assert(!starts_with(l9, seq!['=', 'A', 'R', 'C', 'H', '=']) && !starts_with(l9, seq!['=', 'S', 'I', 'Z', 'E', '=']));
    assert(!starts_with(l9, seq!['=', 'S', 'U', 'M', '=']) && l9 != l5 && l9 != l7);
    assert(!starts_with(l11, seq!['=', 'V', 'E', 'R', '=']) && !starts_with(l11, seq!['=', 'R', 'E', 'L', '=']));
    assert(!starts_with(l11, seq!['=', 'A', 'R', 'C', 'H', '=']) && !starts_with(l11, seq!['=', 'S', 'I', 'Z', 'E', '=']));
    assert(!starts_with(l11, seq!['=', 'S', 'U', 'M', '=']) && l11 != l5 && l11 != l7 && l11 != l9);
    assert(!starts_with(l3, seq!['=', 'V', 'E', 'R', '=']));
    assert(!starts_with(desc, pkg) && !starts_with(req, pkg) && !starts_with(prov, pkg));
    assert(desc != l5 && desc != l7 && desc != l9 && desc != l11);
    assert(req != l5 && req != l7 && req != l9 && req != l11);
    assert(prov != l5 && prov != l7 && prov != l9 && prov != l11);
    assert(!starts_with(desc, seq!['=', 'V', 'E', 'R', '=']) && !starts_with(req, seq!['=', 'V', 'E', 'R', '=']));
    assert(!starts_with(prov, seq!['=', 'V', 'E', 'R', '=']));
    assert(!starts_with(desc, seq!['=', 'R', 'E', 'L', '=']) && !starts_with(req, seq!['=', 'R', 'E', 'L', '=']));
    assert(!starts_with(prov, seq!['=', 'R', 'E', 'L', '=']));
    assert(!starts_with(desc, seq!['=', 'A', 'R', 'C', 'H', '=']) && !starts_with(req, seq!['=', 'A', 'R', 'C', 'H', '=']));
    assert(!starts_with(prov, seq!['=', 'A', 'R', 'C', 'H', '=']));
    assert(!starts_with(desc, seq!['=', 'S', 'I', 'Z', 'E', '=']) && !starts_with(req, seq!['=', 'S', 'I', 'Z', 'E', '=']));
    assert(!starts_with(prov, seq!['=', 'S', 'I', 'Z', 'E', '=']));
    assert(!starts_with(desc, seq!['=', 'S', 'U', 'M', '=']) && !starts_with(req, seq!['=', 'S', 'U', 'M', '=']));
    assert(!starts_with(prov, seq!['=', 'S', 'U', 'M', '=']));
    let s0 = Seq::<Seq<char>>::empty();
    let ls = s0.push(l0).push(l1).push(l2).push(l3).push(l4).push(l5).push(desc).push(l7).push(req).push(l9).push(
        prov,
    ).push(l11);
    lemma_run_push(s0, l0);
    lemma_run_push(s0.push(l0), l1);
    lemma_run_push(s0.push(l0).push(l1), l2);
    lemma_run_push(s0.push(l0).push(l1).push(l2), l3);
    lemma_run_push(s0.push(l0).push(l1).push(l2).push(l3), l4);
    lemma_run_push(s0.push(l0).push(l1).push(l2).push(l3).push(l4), l5);
    lemma_run_push(s0.push(l0).push(l1).push(l2).push(l3).push(l4).push(l5), desc);
    lemma_run_push(s0.push(l0).push(l1).push(l2).push(l3).push(l4).push(l5).push(desc), l7);
    lemma_run_push(s0.push(l0).push(l1).push(l2).push(l3).push(l4).push(l5).push(desc).push(l7), req);
    lemma_run_push(s0.push(l0).push(l1).push(l2).push(l3).push(l4).push(l5).push(desc).push(l7).push(req), l9);
    lemma_run_push(
        s0.push(l0).push(l1).push(l2).push(l3).push(l4).push(l5).push(desc).push(l7).push(req).push(l9),
        prov,
    );
    lemma_run_push(
        s0.push(l0).push(l1).push(l2).push(l3).push(l4).push(l5).push(desc).push(l7).push(req).push(l9).push(prov),
        l11,
    );
    assert(ls =~= seq![l0, l1, l2, l3, l4, l5, desc, l7, req, l9, prov, l11]);
    assert(Seq::<char>::empty() + desc =~= desc);
    assert(Seq::<Seq<char>>::empty().push(trim(req)) =~= seq![trim(req)]);
    assert(Seq::<Seq<char>>::empty().push(trim(prov)) =~= seq![trim(prov)]);
    assert(Seq::<RawPackageView>::empty().push(dnf_run(ls).current.unwrap()) =~= seq![dnf_run(ls).current.unwrap()]);
}

// ---------------------------------------------------------------------------
// Capability resolution
// ---------------------------------------------------------------------------

/// The version-constraint operators that `clean_capability` cuts at.
pub open spec fn cap_ops() -> Seq<Seq<char>> {
    seq![
        seq![' ', '>', '=', ' '],
        seq![' ', '<', '=', ' '],
        seq![' ', '=', ' '],
        seq![' ', '>', ' '],
        seq![' ', '<', ' '],
        seq!['>', '='],
        seq!['<', '='],
        seq!['='],
    ]
}

/// Some version-constraint operator occurs in `c` at index `i`.
pub open spec fn op_at(c: Seq<char>, i: int) -> bool {
    exists|k: int| 0 <= k < cap_ops().len() && occurs_at(c, #[trigger] cap_ops()[k], i)
}

/// Where `clean_capability` cuts `c`: the earliest index at which an operator
/// occurs, or the end of `c`.
pub open spec fn cap_cut(c: Seq<char>) -> int {
    if exists|i: int| op_at(c, i) {
        choose|i: int| op_at(c, i) && forall|j: int| 0 <= j < i ==> !op_at(c, j)
    } else {
        c.len() as int
    }
}

/// An RPM capability without its version constraint, trimmed.
pub open spec fn clean_cap(c: Seq<char>) -> Seq<char> {
    trim(c.take(cap_cut(c)))
}

proof fn lemma_cap_cut(c: Seq<char>, cut: int)
    requires
        0 <= cut <= c.len(),
        forall|j: int| 0 <= j < cut ==> !op_at(c, j),
        cut == c.len() || op_at(c, cut),
    ensures
        cap_cut(c) == cut,
{
    if cut == c.len() {
        if exists|i: int| op_at(c, i) {
            let i = choose|i: int| op_at(c, i);
            let k = choose|k: int| 0 <= k < cap_ops().len() && occurs_at(c, #[trigger] cap_ops()[k], i);
            assert(cap_ops()[k].len() > 0);
            assert(i < cut);
        }
    } else {
        let w = choose|i: int| op_at(c, i) && forall|j: int| 0 <= j < i ==> !op_at(c, j);
        assert(op_at(c, w) && forall|j: int| 0 <= j < w ==> !op_at(c, j));
        if w < cut {
            assert(!op_at(c, w));
        } else if w > cut {
            assert(!op_at(c, cut));
        }
    }
}

proof fn lemma_cap_cut_scan(c: Seq<char>, i: int)
    requires
        0 <= i <= c.len(),
        forall|j: int| 0 <= j < i ==> !op_at(c, j),
    ensures
        0 <= cap_cut(c) <= c.len(),
        forall|j: int| 0 <= j < cap_cut(c) ==> !op_at(c, j),
        cap_cut(c) == c.len() || op_at(c, cap_cut(c)),
    decreases c.len() - i,
{
    if i == c.len() {
        lemma_cap_cut(c, i);
    } else if op_at(c, i) {
        lemma_cap_cut(c, i);
    } else {
        lemma_cap_cut_scan(c, i + 1);
    }
}

/// An operator found in a piece of `c` is found in `c` too.
proof fn lemma_op_in_piece(c: Seq<char>, lo: int, hi: int, i: int)
    requires
        0 <= lo <= hi <= c.len(),
        op_at(c.subrange(lo, hi), i),
    ensures
        op_at(c, lo + i),
{
    let piece = c.subrange(lo, hi);
    let k = choose|k: int| 0 <= k < cap_ops().len() && occurs_at(piece, #[trigger] cap_ops()[k], i);
    let op = cap_ops()[k];
    assert(piece.subrange(i, i + op.len()) =~= c.subrange(lo + i, lo + i + op.len()));
    assert(occurs_at(c, cap_ops()[k], lo + i));
}

/// Law: stripping the version constraint of a capability that has none left
/// changes nothing: `clean_cap` is idempotent.
pub proof fn law_clean_cap_idempotent(c: Seq<char>)
    ensures
        clean_cap(clean_cap(c)) == clean_cap(c),
{
    lemma_cap_cut_scan(c, 0);
    let t = c.take(cap_cut(c));
    lemma_clean_no_op(c);
    let u = clean_cap(c);
    lemma_cap_cut(u, u.len() as int);
    assert(u.take(u.len() as int) =~= u);
    lemma_trim_idempotent(t);
}

/// No operator occurs in a cleaned capability.
proof fn lemma_clean_no_op(c: Seq<char>)
    ensures
        forall|j: int| !op_at(clean_cap(c), j),
{
    lemma_cap_cut_scan(c, 0);
    let cut = cap_cut(c);
    let t = c.take(cut);
    let (a, b) = lemma_trim_shape(t);
    let u = clean_cap(c);
    assert(u == t.subrange(a, b));
    assert forall|j: int| !op_at(u, j) by {
        if op_at(u, j) {
            let k = choose|k: int| 0 <= k < cap_ops().len() && occurs_at(u, #[trigger] cap_ops()[k], j);
            assert(cap_ops()[k].len() > 0);
            lemma_op_in_piece(t, a, b, j);
            assert(t =~= c.subrange(0, cut));
            lemma_op_in_piece(c, 0, cut, a + j);
            let k2 = choose|k: int| 0 <= k < cap_ops().len() && occurs_at(t, #[trigger] cap_ops()[k], a + j);
            assert(a + j < cut);
        }
    }
}

/// One of the version-constraint operators ` >= `, ` <= `, ` = `, ` > `,
/// ` < `, `>=`, `<=`, `=` occurs in `c` at index `i`.
pub open spec fn constraint_at(c: Seq<char>, i: int) -> bool {
    ||| occurs_at(c, seq![' ', '>', '=', ' '], i)
    ||| occurs_at(c, seq![' ', '<', '=', ' '], i)
    ||| occurs_at(c, seq![' ', '=', ' '], i)
    ||| occurs_at(c, seq![' ', '>', ' '], i)
    ||| occurs_at(c, seq![' ', '<', ' '], i)
    ||| occurs_at(c, seq!['>', '='], i)
    ||| occurs_at(c, seq!['<', '='], i)
    ||| occurs_at(c, seq!['='], i)
}

proof fn lemma_constraint_at(c: Seq<char>, i: int)
    ensures
        constraint_at(c, i) <==> op_at(c, i),
{
    let ops = cap_ops();
    assert(ops[0] == seq![' ', '>', '=', ' '] && ops[1] == seq![' ', '<', '=', ' '] && ops[2] == seq![' ', '=', ' ']);
    assert(ops[3] == seq![' ', '>', ' '] && ops[4] == seq![' ', '<', ' '] && ops[5] == seq!['>', '=']);
    assert(ops[6] == seq!['<', '='] && ops[7] == seq!['=']);
    if op_at(c, i) {
        let k = choose|k: int| 0 <= k < ops.len() && occurs_at(c, #[trigger] ops[k], i);
        assert(0 <= k < 8);
    }
}

/// Law: cleaning a capability cuts it before the first version-constraint
/// operator (` >= `, ` <= `, ` = `, ` > `, ` < `, `>=`, `<=` or `=`) and
/// trims it; so the result holds no `=`, ` > ` or ` < `.
pub proof fn law_clean_cap_shape(c: Seq<char>)
    ensures
        exists|cut: int|
            0 <= cut <= c.len() && clean_cap(c) == trim(#[trigger] c.take(cut)) && (cut == c.len() || constraint_at(
                c,
                cut,
            )) && forall|j: int| 0 <= j < cut ==> !constraint_at(c, j),
        forall|k: int| 0 <= k < clean_cap(c).len() ==> clean_cap(c)[k] != '=',
        forall|k: int| !occurs_at(clean_cap(c), seq![' ', '>', ' '], k),
        forall|k: int| !occurs_at(clean_cap(c), seq![' ', '<', ' '], k),
{
    lemma_cap_cut_scan(c, 0);
    let cut = cap_cut(c);
    assert(cut == c.len() || constraint_at(c, cut)) by {
        lemma_constraint_at(c, cut);
    }
    assert forall|j: int| 0 <= j < cut implies !constraint_at(c, j) by {
        lemma_constraint_at(c, j);
    }
    assert(clean_cap(c) == trim(c.take(cut)));
    let u = clean_cap(c);
    assert forall|k: int| 0 <= k < u.len() implies u[k] != '=' by {
        lemma_clean_no_op(c);
        lemma_constraint_at(u, k);
        if u[k] == '=' {
            assert(u.subrange(k, k + 1) =~= seq!['=']);
        }
    }
    assert forall|k: int| !occurs_at(u, seq![' ', '>', ' '], k) by {
        lemma_clean_no_op(c);
        lemma_constraint_at(u, k);
    }
    assert forall|k: int| !occurs_at(u, seq![' ', '<', ' '], k) by {
        lemma_clean_no_op(c);
        lemma_constraint_at(u, k);
    }
}

/// The earlier of `split_idx` and the first occurrence of `op` in `c`.
fn cut_earlier(c: &Vec<char>, op: &Vec<char>, split_idx: usize) -> (res: usize)
    requires
        split_idx <= c.len(),
    ensures
        res <= split_idx,
        forall|j: int| 0 <= j < res ==> !occurs_at(c@, op@, j),
        res == split_idx || occurs_at(c@, op@, res as int),
{
    match find_chars(c, op) {
        Some(idx) => {
            if idx < split_idx {
                idx
            } else {
                split_idx
            }
        },
        None => split_idx,
    }
}

/// Strips the version constraint from an RPM capability string, e.g.
/// `libfoo.so.1()(64bit) >= 1.2` gives `libfoo.so.1()(64bit)`.
pub fn clean_capability(cap: &str) -> (res: String)
    ensures
        res@ == clean_cap(cap@),
{
    let c = chars_of(cap);
    let n = c.len();
    let o0 = vec![' ', '>', '=', ' '];
    let o1 = vec![' ', '<', '=', ' '];
    let o2 = vec![' ', '=', ' '];
    let o3 = vec![' ', '>', ' '];
    let o4 = vec![' ', '<', ' '];
    let o5 = vec!['>', '='];
    let o6 = vec!['<', '='];
    let o7 = vec!['='];
    let s0 = cut_earlier(&c, &o0, n);
    let s1 = cut_earlier(&c, &o1, s0);
    let s2 = cut_earlier(&c, &o2, s1);
    let s3 = cut_earlier(&c, &o3, s2);
    let s4 = cut_earlier(&c, &o4, s3);
    let s5 = cut_earlier(&c, &o5, s4);
    let s6 = cut_earlier(&c, &o6, s5);
    let split_idx = cut_earlier(&c, &o7, s6);
    proof {
        let ops = cap_ops();
        assert(o0@ == ops[0] && o1@ == ops[1] && o2@ == ops[2] && o3@ == ops[3]);
        assert(o4@ == ops[4] && o5@ == ops[5] && o6@ == ops[6] && o7@ == ops[7]);
        assert forall|j: int| 0 <= j < split_idx implies !op_at(c@, j) by {
            if op_at(c@, j) {
                let m = choose|m: int| 0 <= m < ops.len() && occurs_at(c@, #[trigger] ops[m], j);
                assert(0 <= m < 8);
            }
        }
        if split_idx < n {
            if occurs_at(c@, o7@, split_idx as int) {
                assert(occurs_at(c@, ops[7], split_idx as int));
            } else if occurs_at(c@, o6@, split_idx as int) {
                assert(occurs_at(c@, ops[6], split_idx as int));
            } else if occurs_at(c@, o5@, split_idx as int) {
                assert(occurs_at(c@, ops[5], split_idx as int));
            } else if occurs_at(c@, o4@, split_idx as int) {
                assert(occurs_at(c@, ops[4], split_idx as int));
            } else if occurs_at(c@, o3@, split_idx as int) {
                assert(occurs_at(c@, ops[3], split_idx as int));
            } else if occurs_at(c@, o2@, split_idx as int) {
                assert(occurs_at(c@, ops[2], split_idx as int));
            } else if occurs_at(c@, o1@, split_idx as int) {
                assert(occurs_at(c@, ops[1], split_idx as int));
            } else {
                assert(occurs_at(c@, ops[0], split_idx as int));
            }
            assert(op_at(c@, split_idx as int));
        }
        lemma_cap_cut(c@, split_idx as int);
    }
    let head = slice_of(&c, 0, split_idx);
    let t = trim_chars(&head);
    proof {
        assert(c@.subrange(0, split_idx as int) =~= c@.take(split_idx as int));
    }
    string_of(t.as_slice())
}

/// An RPM-internal virtual capability (`rpmlib(...)`, `rtld(...)`).
pub open spec fn internal_cap(c: Seq<char>) -> bool {
    starts_with(c, seq!['r', 'p', 'm', 'l', 'i', 'b', '(']) || starts_with(c, seq!['r', 't', 'l', 'd', '('])
}

/// Package `j` provides capability `cap`: by its own name or by one of its
/// declared capabilities, version constraint stripped.
pub open spec fn provides_cap(raw: Seq<RawPackageView>, j: int, cap: Seq<char>) -> bool {
    ||| raw[j].name == cap
    ||| exists|k: int| 0 <= k < raw[j].provides.len() && clean_cap(#[trigger] raw[j].provides[k]) == cap
}

/// The `k`-th requirement of `i` is not RPM-internal and `j` provides it.
pub open spec fn requirement_met_by(raw: Seq<RawPackageView>, i: int, k: int, j: int) -> bool {
    !internal_cap(clean_cap(raw[i].requires[k])) && provides_cap(raw, j, clean_cap(raw[i].requires[k]))
}

/// Package `i` depends on package `j`: `j` is another package that provides a
/// capability `i` requires, RPM-internal requirements left out.
pub open spec fn requires_pkg(raw: Seq<RawPackageView>, i: int, j: int) -> bool {
    &&& 0 <= j < raw.len()
    &&& j != i
    &&& exists|k: int| 0 <= k < raw[i].requires.len() && #[trigger] requirement_met_by(raw, i, k, j)
}

/// Law: package `i` depends on package `j` exactly when `j` is another
/// package that provides one of `i`'s requirements, version constraint
/// stripped, by its name or by one of its declared capabilities (constraint
/// stripped too), the requirement not being RPM-internal (`rpmlib(...)` or
/// `rtld(...)`).
pub proof fn law_requires_pkg(raw: Seq<RawPackageView>, i: int, j: int)
    ensures
        requires_pkg(raw, i, j) <==> (0 <= j < raw.len() && j != i && exists|k: int|
            0 <= k < raw[i].requires.len() && {
                let c = #[trigger] clean_cap(raw[i].requires[k]);
                &&& !starts_with(c, seq!['r', 'p', 'm', 'l', 'i', 'b', '('])
                &&& !starts_with(c, seq!['r', 't', 'l', 'd', '('])
                &&& (raw[j].name == c || exists|q: int|
                    0 <= q < raw[j].provides.len() && clean_cap(#[trigger] raw[j].provides[q]) == c)
            }),
{
    if requires_pkg(raw, i, j) {
        let k = choose|k: int| 0 <= k < raw[i].requires.len() && #[trigger] requirement_met_by(raw, i, k, j);
        assert(clean_cap(raw[i].requires[k]) == clean_cap(raw[i].requires[k]));
    }
    if 0 <= j < raw.len() && j != i && exists|k: int|
        0 <= k < raw[i].requires.len() && {
            let c = #[trigger] clean_cap(raw[i].requires[k]);
            &&& !starts_with(c, seq!['r', 'p', 'm', 'l', 'i', 'b', '('])
            &&& !starts_with(c, seq!['r', 't', 'l', 'd', '('])
            &&& (raw[j].name == c || exists|q: int|
                0 <= q < raw[j].provides.len() && clean_cap(#[trigger] raw[j].provides[q]) == c)
        } {
        let k = choose|k: int|
            0 <= k < raw[i].requires.len() && {
                let c = #[trigger] clean_cap(raw[i].requires[k]);
                &&& !starts_with(c, seq!['r', 'p', 'm', 'l', 'i', 'b', '('])
                &&& !starts_with(c, seq!['r', 't', 'l', 'd', '('])
                &&& (raw[j].name == c || exists|q: int|
                    0 <= q < raw[j].provides.len() && clean_cap(#[trigger] raw[j].provides[q]) == c)
            };
        assert(requirement_met_by(raw, i, k, j));
    }
}

/// Every element of `s` is smaller than the ones after it.
pub open spec fn strictly_increasing(s: Seq<usize>) -> bool {
    forall|a: int, b: int| 0 <= a < b < s.len() ==> s[a] < s[b]
}

/// The providers that `map` lists for `c` (empty when `c` is absent).
pub open spec fn providers(map: Map<Seq<char>, Vec<usize>>, c: Seq<char>) -> Seq<usize> {
    if map.contains_key(c) {
        map[c]@
    } else {
        seq![]
    }
}

/// `v` with `x` appended, as a new vector.
fn pushed(v: &Vec<usize>, x: usize) -> (res: Vec<usize>)
    ensures
        res@ == v@.push(x),
{
    let mut res: Vec<usize> = Vec::new();
    let mut k: usize = 0;
    while k < v.len()
        invariant
            k <= v.len(),
            res@ == v@.take(k as int),
        decreases v.len() - k,
    {
        res.push(v[k]);
        k += 1;
        assert(res@ =~= v@.take(k as int));
    }
    assert(v@.take(v.len() as int) =~= v@);
    res.push(x);
    res
}

/// Records that package `i` provides `key`.
fn add_provider(map: &mut StringHashMap<Vec<usize>>, key: String, i: usize)
    ensures
        forall|c: Seq<char>| #[trigger] final(map)@.contains_key(c) <==> old(map)@.contains_key(c) || c == key@,
        forall|c: Seq<char>|
            #[trigger] providers(final(map)@, c) == if c == key@ {
                providers(old(map)@, c).push(i)
            } else {
                providers(old(map)@, c)
            },
{
    let v = match map.get(key.as_str()) {
        Some(old_v) => pushed(old_v, i),
        None => {
            let mut nv: Vec<usize> = Vec::new();
            nv.push(i);
            nv
        },
    };
    let ghost k = key@;
    map.insert(key, v);
    proof {
        assert forall|c: Seq<char>| #[trigger] providers(map@, c) == if c == k {
            providers(old(map)@, c).push(i)
        } else {
            providers(old(map)@, c)
        } by {
            if c == k && !old(map)@.contains_key(c) {
                assert(v@ =~= Seq::<usize>::empty().push(i));
            }
        }
    }
}

/// The map from each capability to the packages that provide it.
fn build_provides_map(raw_pkgs: &Vec<RawPackage>) -> (map: StringHashMap<Vec<usize>>)
    ensures
        forall|c: Seq<char>, m: int|
            0 <= m < providers(map@, c).len() ==> (#[trigger] providers(map@, c)[m]) < raw_pkgs@.len()
                && provides_cap(raw_views(raw_pkgs@), providers(map@, c)[m] as int, c),
        forall|c: Seq<char>, j: int|
            0 <= j < raw_pkgs@.len() && provides_cap(raw_views(raw_pkgs@), j, c) ==> #[trigger] providers(
                map@,
                c,
            ).contains(j as usize),
{
    let ghost rv = raw_views(raw_pkgs@);
    let n = raw_pkgs.len();
    let mut map: StringHashMap<Vec<usize>> = StringHashMap::new();
    let mut i: usize = 0;
    while i < n
        invariant
            n == raw_pkgs@.len() == rv.len(),
            rv == raw_views(raw_pkgs@),
            i <= n,
            forall|c: Seq<char>, m: int|
                0 <= m < providers(map@, c).len() ==> (#[trigger] providers(map@, c)[m]) < i
                    && provides_cap(rv, providers(map@, c)[m] as int, c),
            forall|c: Seq<char>, j: int|
                0 <= j < i && provides_cap(rv, j, c) ==> #[trigger] providers(map@, c).contains(j as usize),
        decreases n - i,
    {
        let pkg = &raw_pkgs[i];
        assert(rv[i as int] == pkg@);
        let ghost before = map@;
        add_provider(&mut map, pkg.name.clone(), i);
        proof {
            assert(providers(map@, pkg.name@)[providers(before, pkg.name@).len() as int] == i);
            assert(rv[i as int].name == pkg.name@);
            assert forall|c: Seq<char>, m: int|
                0 <= m < providers(map@, c).len() implies (#[trigger] providers(map@, c)[m]) < i + 1
                    && provides_cap(rv, providers(map@, c)[m] as int, c) by {
                if c == pkg.name@ && m == providers(before, c).len() {
                } else {
                    assert(providers(map@, c)[m] == providers(before, c)[m]);
                }
            }
            assert forall|c: Seq<char>, j: int|
                0 <= j < i && provides_cap(rv, j, c) implies #[trigger] providers(map@, c).contains(j as usize) by {
                assert(providers(before, c).contains(j as usize));
                let w = choose|w: int| 0 <= w < providers(before, c).len() && providers(before, c)[w] == j as usize;
                assert(providers(map@, c)[w] == j as usize);
            }
        }
        let m = pkg.provides.len();
        let mut k: usize = 0;
        while k < m
            invariant
                n == raw_pkgs@.len() == rv.len(),
                rv == raw_views(raw_pkgs@),
                i < n,
                pkg == raw_pkgs@[i as int],
                rv[i as int] == pkg@,
                m == pkg.provides@.len(),
                k <= m,
                forall|c: Seq<char>, mm: int|
                    0 <= mm < providers(map@, c).len() ==> (#[trigger] providers(map@, c)[mm]) < i + 1
                        && provides_cap(rv, providers(map@, c)[mm] as int, c),
                forall|c: Seq<char>, j: int|
                    0 <= j < i && provides_cap(rv, j, c) ==> #[trigger] providers(map@, c).contains(j as usize),
                providers(map@, rv[i as int].name).contains(i),
                forall|kk: int| 0 <= kk < k ==> providers(map@, clean_cap(#[trigger] rv[i as int].provides[kk])).contains(i),
            decreases m - k,
        {
            let cleaned = clean_capability(pkg.provides[k].as_str());
            assert(rv[i as int].provides[k as int] == pkg.provides@[k as int]@);
            let ghost before = map@;
            let ghost key = cleaned@;
            add_provider(&mut map, cleaned, i);
            proof {
                assert forall|c: Seq<char>, mm: int|
                    0 <= mm < providers(map@, c).len() implies (#[trigger] providers(map@, c)[mm]) < i + 1
                        && provides_cap(rv, providers(map@, c)[mm] as int, c) by {
                    if c == key && mm == providers(before, c).len() {
                        assert(clean_cap(rv[i as int].provides[k as int]) == c);
                    } else {
                        assert(providers(map@, c)[mm] == providers(before, c)[mm]);
                    }
                }
                assert forall|c: Seq<char>, x: usize|
                    providers(before, c).contains(x) implies #[trigger] providers(map@, c).contains(x) by {
                    let w = choose|w: int| 0 <= w < providers(before, c).len() && providers(before, c)[w] == x;
                    assert(providers(map@, c)[w] == x);
                }
                assert(providers(map@, key)[providers(before, key).len() as int] == i);
                assert forall|c: Seq<char>, j: int|
                    0 <= j < i && provides_cap(rv, j, c) implies #[trigger] providers(map@, c).contains(j as usize) by {
                    assert(providers(before, c).contains(j as usize));
                }
                assert(providers(before, rv[i as int].name).contains(i));
                assert forall|kk: int| 0 <= kk < k + 1 implies providers(map@, clean_cap(#[trigger] rv[i as int].provides[kk])).contains(i) by {
                    if kk < k {
                        assert(providers(before, clean_cap(rv[i as int].provides[kk])).contains(i));
                    }
                }
            }
            k += 1;
        }
        proof {
            assert forall|c: Seq<char>, j: int|
                0 <= j < i + 1 && provides_cap(rv, j, c) implies #[trigger] providers(map@, c).contains(j as usize) by {
                if j == i {
                    if rv[j].name != c {
                        let kk = choose|kk: int| 0 <= kk < rv[j].provides.len() && clean_cap(#[trigger] rv[j].provides[kk]) == c;
                        assert(providers(map@, clean_cap(rv[i as int].provides[kk])).contains(i));
                    }
                }
            }
        }
        i += 1;
    }
    map
}

/// Whether `c` names an RPM-internal capability.
fn is_internal_cap(c: &String) -> (res: bool)
    ensures
        res == internal_cap(c@),
{
    let cc = chars_of(c.as_str());
    matches_at(&cc, &vec!['r', 'p', 'm', 'l', 'i', 'b', '('], 0) || matches_at(
        &cc,
        &vec!['r', 't', 'l', 'd', '('],
        0,
    )
}

/// The packages that package `i` depends on, in increasing order.
fn resolve_one(raw_pkgs: &Vec<RawPackage>, map: &StringHashMap<Vec<usize>>, i: usize) -> (deps: Vec<usize>)
    requires
        i < raw_pkgs@.len(),
        forall|c: Seq<char>, m: int|
            0 <= m < providers(map@, c).len() ==> (#[trigger] providers(map@, c)[m]) < raw_pkgs@.len()
                && provides_cap(raw_views(raw_pkgs@), providers(map@, c)[m] as int, c),
        forall|c: Seq<char>, j: int|
            0 <= j < raw_pkgs@.len() && provides_cap(raw_views(raw_pkgs@), j, c) ==> #[trigger] providers(
                map@,
                c,
            ).contains(j as usize),
    ensures
        strictly_increasing(deps@),
        forall|m: int| 0 <= m < deps@.len() ==> #[trigger] deps@[m] < raw_pkgs@.len(),
        forall|j: int|
            0 <= j < raw_pkgs@.len() ==> (deps@.contains(j as usize) <==> requires_pkg(
                raw_views(raw_pkgs@),
                i as int,
                j,
            )),
{
    let ghost rv = raw_views(raw_pkgs@);
    let n = raw_pkgs.len();
    let mut marks: Vec<bool> = Vec::new();
    while marks.len() < n
        invariant
            marks.len() <= n,
            forall|j: int| 0 <= j < marks.len() ==> !marks@[j],
        decreases n - marks.len(),
    {
        marks.push(false);
    }
    let pkg = &raw_pkgs[i];
    assert(rv[i as int] == pkg@);
    let nreq = pkg.requires.len();
    let mut r: usize = 0;
    while r < nreq
        invariant
            n == raw_pkgs@.len() == rv.len() == marks@.len(),
            rv == raw_views(raw_pkgs@),
            i < n,
            rv[i as int] == pkg@,
            nreq == pkg.requires@.len(),
            r <= nreq,
            forall|c: Seq<char>, m: int|
                0 <= m < providers(map@, c).len() ==> (#[trigger] providers(map@, c)[m]) < n
                    && provides_cap(rv, providers(map@, c)[m] as int, c),
            forall|c: Seq<char>, j: int|
                0 <= j < n && provides_cap(rv, j, c) ==> #[trigger] providers(map@, c).contains(j as usize),
            forall|j: int|
                0 <= j < n ==> (#[trigger] marks@[j] <==> (j != i && exists|k: int|
                    0 <= k < r && #[trigger] requirement_met_by(rv, i as int, k, j))),
        decreases nreq - r,
    {
        let c = clean_capability(pkg.requires[r].as_str());
        assert(rv[i as int].requires[r as int] == pkg.requires@[r as int]@);
        let ghost before = marks@;
        let ghost cap = c@;
        if !is_internal_cap(&c) {
            match map.get(c.as_str()) {
                Some(ps) => {
                    assert(providers(map@, cap) == ps@);
                    let mut m: usize = 0;
                    while m < ps.len()
                        invariant
                            n == marks@.len() == before.len(),
                            i < n,
                            m <= ps@.len(),
                            forall|mm: int| 0 <= mm < ps@.len() ==> #[trigger] ps@[mm] < n,
                            forall|j: int|
                                0 <= j < n ==> (#[trigger] marks@[j] <==> (before[j] || (j != i && exists|mm: int|
                                    0 <= mm < m && ps@[mm] == j as usize))),
                        decreases ps.len() - m,
                    {
                        let p = ps[m];
                        if p != i {
                            marks.set(p, true);
                        }
                        proof {
                            assert forall|j: int| 0 <= j < n implies (#[trigger] marks@[j] <==> (before[j] || (
                            j != i && exists|mm: int| 0 <= mm < m + 1 && ps@[mm] == j as usize))) by {
                                if j == p && j != i {
                                    assert(ps@[m as int] == j as usize);
                                }
                            }
                        }
                        m += 1;
                    }
                    proof {
                        assert forall|j: int| 0 <= j < n implies (#[trigger] marks@[j] <==> (j != i && exists|k: int|
                            0 <= k < r + 1 && #[trigger] requirement_met_by(rv, i as int, k, j))) by {
                            if j != i && requirement_met_by(rv, i as int, r as int, j) {
                                assert(providers(map@, cap).contains(j as usize));
                                let w = choose|w: int| 0 <= w < ps@.len() && ps@[w] == j as usize;
                                assert(0 <= w < m && ps@[w] == j as usize);
                            }
                            if marks@[j] && !before[j] {
                                let w = choose|w: int| 0 <= w < m && ps@[w] == j as usize;
                                assert(provides_cap(rv, providers(map@, cap)[w] as int, cap));
                                assert(requirement_met_by(rv, i as int, r as int, j));
                            }
                        }
                    }
                },
                None => {
                    proof {
                        assert forall|j: int| 0 <= j < n implies (#[trigger] marks@[j] <==> (j != i && exists|k: int|
                            0 <= k < r + 1 && #[trigger] requirement_met_by(rv, i as int, k, j))) by {
                            if requirement_met_by(rv, i as int, r as int, j) {
                                assert(providers(map@, cap).contains(j as usize));
                            }
                        }
                    }
                },
            }
        } else {
            proof {
                assert forall|j: int| 0 <= j < n implies (#[trigger] marks@[j] <==> (j != i && exists|k: int|
                    0 <= k < r + 1 && #[trigger] requirement_met_by(rv, i as int, k, j))) by {
                    assert(!requirement_met_by(rv, i as int, r as int, j));
                }
            }
        }
        r += 1;
    }
    let mut deps: Vec<usize> = Vec::new();
    let mut j: usize = 0;
    while j < n
        invariant
            n == marks@.len() == rv.len(),
            j <= n,
            strictly_increasing(deps@),
            forall|m: int| 0 <= m < deps@.len() ==> #[trigger] deps@[m] < j,
            forall|x: int| 0 <= x < n ==> (deps@.contains(x as usize) <==> (x < j && marks@[x])),
        decreases n - j,
    {
        if marks[j] {
            let ghost before = deps@;
            deps.push(j);
            proof {
                assert forall|x: int| 0 <= x < n implies (deps@.contains(x as usize) <==> (x < j + 1 && marks@[x])) by {
                    if x == j {
                        assert(deps@[before.len() as int] == j);
                    }
                    if deps@.contains(x as usize) && x != j {
                        let w = choose|w: int| 0 <= w < deps@.len() && deps@[w] == x as usize;
                        assert(before[w] == x as usize);
                    }
                    if before.contains(x as usize) {
                        let w = choose|w: int| 0 <= w < before.len() && before[w] == x as usize;
                        assert(deps@[w] == x as usize);
                    }
                }
            }
        }
        j += 1;
    }
    proof {
        assert(rv[i as int].requires.len() == nreq);
        assert forall|x: int| 0 <= x < n implies (deps@.contains(x as usize) <==> requires_pkg(rv, i as int, x)) by {
            assert(deps@.contains(x as usize) <==> marks@[x]);
        }
    }
    deps
}

/// Resolves each package's required capabilities into the indices of the
/// packages that provide them, and converts the packages to graph inputs.
pub fn resolve_packages(raw_pkgs: Vec<RawPackage>) -> (res: Vec<PackageInput>)
    ensures
        res@.len() == raw_pkgs@.len(),
        forall|i: int|
            #![trigger res@[i]]
            0 <= i < res@.len() ==> {
                &&& res@[i].name == raw_pkgs@[i].name
                &&& res@[i].version == raw_pkgs@[i].version
                &&& res@[i].release == raw_pkgs@[i].release
                &&& res@[i].arch == raw_pkgs@[i].arch
                &&& res@[i].installsize == raw_pkgs@[i].installsize
                &&& res@[i].summary == raw_pkgs@[i].summary
                &&& res@[i].description == raw_pkgs@[i].description
                &&& res@[i].pkg_type == PackageType::Rpm
                &&& res@[i].flatpak_deps@.len() == 0
                &&& strictly_increasing(res@[i].resolved_deps@)
                &&& forall|m: int|
                    0 <= m < res@[i].resolved_deps@.len() ==> #[trigger] res@[i].resolved_deps@[m] < res@.len()
                &&& forall|j: int|
                    0 <= j < res@.len() ==> (res@[i].resolved_deps@.contains(j as usize) <==> requires_pkg(
                        raw_views(raw_pkgs@),
                        i,
                        j,
                    ))
            },
{
    let n = raw_pkgs.len();
    let ghost rv = raw_views(raw_pkgs@);
    let map = build_provides_map(&raw_pkgs);
    let mut resolved: Vec<Vec<usize>> = Vec::new();
    while resolved.len() < n
        invariant
            n == raw_pkgs@.len(),
            rv == raw_views(raw_pkgs@),
            resolved.len() <= n,
            forall|c: Seq<char>, m: int|
                0 <= m < providers(map@, c).len() ==> (#[trigger] providers(map@, c)[m]) < raw_pkgs@.len()
                    && provides_cap(raw_views(raw_pkgs@), providers(map@, c)[m] as int, c),
            forall|c: Seq<char>, j: int|
                0 <= j < raw_pkgs@.len() && provides_cap(raw_views(raw_pkgs@), j, c) ==> #[trigger] providers(
                    map@,
                    c,
                ).contains(j as usize),
            forall|i: int|
                #![trigger resolved@[i]]
                0 <= i < resolved.len() ==> {
                    &&& strictly_increasing(resolved@[i]@)
                    &&& forall|m: int| 0 <= m < resolved@[i]@.len() ==> #[trigger] resolved@[i]@[m] < n
                    &&& forall|j: int|
                        0 <= j < n ==> (resolved@[i]@.contains(j as usize) <==> requires_pkg(rv, i, j))
                },
        decreases n - resolved.len(),
    {
        let d = resolve_one(&raw_pkgs, &map, resolved.len());
        resolved.push(d);
    }
    let mut res: Vec<PackageInput> = Vec::new();
    let mut i: usize = 0;
    for rp in it: raw_pkgs
        invariant
            n == it.seq().len() == resolved@.len(),
            it.seq() == raw_pkgs@,
            rv == raw_views(raw_pkgs@),
            i == it.index(),
            res@.len() == i,
            forall|x: int|
                #![trigger resolved@[x]]
                i <= x < n ==> {
                    &&& strictly_increasing(resolved@[x]@)
                    &&& forall|m: int| 0 <= m < resolved@[x]@.len() ==> #[trigger] resolved@[x]@[m] < n
                    &&& forall|j: int|
                        0 <= j < n ==> (resolved@[x]@.contains(j as usize) <==> requires_pkg(rv, x, j))
                },
            forall|x: int|
                #![trigger res@[x]]
                0 <= x < i ==> {
                    &&& res@[x].name == raw_pkgs@[x].name
                    &&& res@[x].version == raw_pkgs@[x].version
                    &&& res@[x].release == raw_pkgs@[x].release
                    &&& res@[x].arch == raw_pkgs@[x].arch
                    &&& res@[x].installsize == raw_pkgs@[x].installsize
                    &&& res@[x].summary == raw_pkgs@[x].summary
                    &&& res@[x].description == raw_pkgs@[x].description
                    &&& res@[x].pkg_type == PackageType::Rpm
                    &&& res@[x].flatpak_deps@.len() == 0
                    &&& strictly_increasing(res@[x].resolved_deps@)
                    &&& forall|m: int| 0 <= m < res@[x].resolved_deps@.len() ==> #[trigger] res@[x].resolved_deps@[m] < n
                    &&& forall|j: int|
                        0 <= j < n ==> (res@[x].resolved_deps@.contains(j as usize) <==> requires_pkg(rv, x, j))
                },
    {
        assert(rp == raw_pkgs@[i as int]);
        let mut deps: Vec<usize> = Vec::new();
        std::mem::swap(&mut deps, &mut resolved[i]);
        res.push(
            PackageInput {
                name: rp.name,
                version: rp.version,
                release: rp.release,
                arch: rp.arch,
                installsize: rp.installsize,
                summary: rp.summary,
                description: rp.description,
                resolved_deps: deps,
                pkg_type: PackageType::Rpm,
                flatpak_deps: Vec::new(),
            },
        );
        i += 1;
    }
    res
}

} // verus!
