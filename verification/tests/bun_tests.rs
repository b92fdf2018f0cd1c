use pkglist::bun::{bun_package_input, bun_root_from_header, parse_bun_list_line};
use pkglist::graph::PackageType;

#[test]
fn test_parse_bun_line() {
    assert_eq!(
        parse_bun_list_line("├── @google/gemini-cli@0.49.0"),
        Some(("@google/gemini-cli".to_string(), "0.49.0".to_string()))
    );
    assert_eq!(
        parse_bun_list_line("└── opencode-ai@1.17.11"),
        Some(("opencode-ai".to_string(), "1.17.11".to_string()))
    );
    assert_eq!(
        parse_bun_list_line("├── arrpc@3.6.0"),
        Some(("arrpc".to_string(), "3.6.0".to_string()))
    );
    assert_eq!(
        parse_bun_list_line("/home/ojr/.bun/install/global node_modules (27)"),
        None
    );
}

#[test]
fn bun_line_edge_cases() {
    // A lone scoped name without a version: the only '@' is the first character.
    assert_eq!(parse_bun_list_line("└── @scope/pkg"), None);
    assert_eq!(parse_bun_list_line(""), None);
    assert_eq!(
        parse_bun_list_line("  │  ┬ ┼ pkg@"),
        Some(("pkg".to_string(), "".to_string()))
    );
}

#[test]
fn bun_header_root() {
    assert_eq!(
        bun_root_from_header("/home/ojr/.bun/install/global node_modules (27)"),
        Some("/home/ojr/.bun/install/global".to_string())
    );
    assert_eq!(bun_root_from_header(" node_modules (3)"), None);
    assert_eq!(bun_root_from_header("no packages"), None);
}

#[test]
fn bun_input_summary_defaults() {
    let p = bun_package_input("arrpc".to_string(), "3.6.0".to_string(), 42, None);
    assert_eq!(p.summary, "Globally installed Bun package: arrpc");
    assert_eq!(p.description, "");
    assert_eq!(p.release, "N/A");
    assert_eq!(p.arch, "all");
    assert_eq!(p.installsize, 42);
    assert_eq!(p.pkg_type, PackageType::Bun);
    let q = bun_package_input("x".to_string(), "1".to_string(), 1, Some("An X".to_string()));
    assert_eq!(q.summary, "An X");
    assert_eq!(q.description, "An X");
    let r = bun_package_input("y".to_string(), "1".to_string(), 1, Some(String::new()));
    assert_eq!(r.summary, "Globally installed Bun package: y");
}
