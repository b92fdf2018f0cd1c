use pkglist::dnf::{clean_capability, parse_dnf_output, resolve_packages};
use pkglist::graph::PackageType;

const OUTPUT: &str = "ignored before any record\n\
=PKG=foo\n\
=VER=1.0\n\
=REL=1.fc40\n\
=ARCH=x86_64\n\
=SIZE=1234\n\
=SUM=Foo summary\n\
=DESC=\n\
Line one\n\
Line two\n\
=REQ=\n\
libbar.so.1()(64bit) >= 2.0\n\
rpmlib(PayloadIsZstd) <= 5.4.18-1\n\
  bash  \n\
\n\
foo\n\
=PROV=\n\
foo = 1.0-1.fc40\n\
libfoo.so.1()(64bit)\n\
=END=\n\
=PKG=bar\n\
=VER=2\n\
=SIZE=abc\n\
=DESC=\n\
\n\
after blank\n\
=PROV=\n\
libbar.so.1()(64bit)\n\
=END=\n\
=PKG=baz\r\n\
=SIZE=+5\r\n\
=REQ=\r\n\
libfoo.so.1()(64bit)\r\n\
libbar.so.1()(64bit)\r\n";

#[test]
fn parses_records() {
    let pkgs = parse_dnf_output(OUTPUT).unwrap();
    assert_eq!(pkgs.len(), 3);
    let foo = &pkgs[0];
    assert_eq!(foo.name, "foo");
    assert_eq!(foo.version, "1.0");
    assert_eq!(foo.release, "1.fc40");
    assert_eq!(foo.arch, "x86_64");
    assert_eq!(foo.installsize, 1234);
    assert_eq!(foo.summary, "Foo summary");
    assert_eq!(foo.description, "Line one\nLine two");
    assert_eq!(
        foo.requires,
        vec![
            "libbar.so.1()(64bit) >= 2.0".to_string(),
            "rpmlib(PayloadIsZstd) <= 5.4.18-1".to_string(),
            "bash".to_string(),
            "foo".to_string(),
        ]
    );
    assert_eq!(foo.provides, vec!["foo = 1.0-1.fc40".to_string(), "libfoo.so.1()(64bit)".to_string()]);
    let bar = &pkgs[1];
    assert_eq!(bar.installsize, 0);
    // A blank first description line leaves no leading newline.
    assert_eq!(bar.description, "after blank");
    let baz = &pkgs[2];
    assert_eq!(baz.name, "baz");
    assert_eq!(baz.installsize, 5);
    assert_eq!(baz.requires.len(), 2);
}

#[test]
fn parsing_joined_outputs_concatenates_the_packages() {
    let split = OUTPUT.find("=PKG=bar").unwrap();
    let (a, b) = OUTPUT.split_at(split);
    let whole: Vec<String> = parse_dnf_output(OUTPUT).unwrap().iter().map(|p| format!("{:?}", p)).collect();
    let mut parts: Vec<String> = parse_dnf_output(a).unwrap().iter().map(|p| format!("{:?}", p)).collect();
    parts.extend(parse_dnf_output(b).unwrap().iter().map(|p| format!("{:?}", p)));
    assert_eq!(whole.len(), 3);
    assert_eq!(whole, parts);
}

#[test]
fn parses_empty_output() {
    assert!(parse_dnf_output("").unwrap().is_empty());
    assert!(parse_dnf_output("=VER=1\n=END=\n").unwrap().is_empty());
}

#[test]
fn size_overflow_counts_as_zero() {
    let pkgs = parse_dnf_output("=PKG=x\n=SIZE=18446744073709551616\n").unwrap();
    assert_eq!(pkgs[0].installsize, 0);
    let pkgs = parse_dnf_output("=PKG=x\n=SIZE=18446744073709551615\n").unwrap();
    assert_eq!(pkgs[0].installsize, u64::MAX);
    let pkgs = parse_dnf_output("=PKG=x\n=SIZE=-1\n").unwrap();
    assert_eq!(pkgs[0].installsize, 0);
}

#[test]
fn cleans_capabilities() {
    assert_eq!(clean_capability("libfoo.so.1()(64bit) >= 1.2"), "libfoo.so.1()(64bit)");
    assert_eq!(clean_capability("foo = 1.0-1.fc40"), "foo");
    assert_eq!(clean_capability("bar<=3"), "bar");
    assert_eq!(clean_capability("  plain  "), "plain");
    assert_eq!(clean_capability("a > 1 = 2"), "a");
    assert_eq!(clean_capability(""), "");
}

#[test]
fn cleaning_twice_changes_nothing() {
    for cap in ["libfoo.so.1()(64bit) >= 1.2", " x =y ", "a >b", "=", "  ", "rpmlib(Foo) <= 4"] {
        let once = clean_capability(cap);
        assert_eq!(clean_capability(&once), once);
    }
    assert_eq!(clean_capability("a >b"), "a >b");
}

#[test]
fn resolves_capabilities_to_providers() {
    let pkgs = parse_dnf_output(OUTPUT).unwrap();
    let inputs = resolve_packages(pkgs);
    assert_eq!(inputs.len(), 3);
    // foo needs libbar (bar); rpmlib is skipped, bash has no provider, and foo itself is no dependency.
    assert_eq!(inputs[0].resolved_deps, vec![1]);
    assert_eq!(inputs[1].resolved_deps, Vec::<usize>::new());
    assert_eq!(inputs[2].resolved_deps, vec![0, 1]);
    assert_eq!(inputs[0].pkg_type, PackageType::Rpm);
    assert_eq!(inputs[0].description, "Line one\nLine two");
    assert!(inputs[0].flatpak_deps.is_empty());
}
