use pkglist::flatpak::{flatpak_package_input, flatpak_runtime_deps, flatpak_size_parts};
use pkglist::graph::{PackageInput, PackageType};
use pkglist::npm::npm_package_input;
use pkglist::pip::pip_package_input;
use pkglist::runtime::{parse_runtime_ref, resolve_flatpak_deps, resolve_pip_deps};

#[test]
fn flatpak_size_text() {
    assert_eq!(flatpak_size_parts("1.5 GB"), Some(("1.5".to_string(), 1073741824)));
    assert_eq!(flatpak_size_parts("500\u{a0}kB"), Some(("500".to_string(), 1024)));
    assert_eq!(flatpak_size_parts("2 M"), Some(("2".to_string(), 1048576)));
    assert_eq!(flatpak_size_parts("3 bytes"), Some(("3".to_string(), 1)));
    assert_eq!(flatpak_size_parts("12"), None);
    assert_eq!(flatpak_size_parts(""), None);
}

#[test]
fn flatpak_runtimes() {
    assert_eq!(
        flatpak_runtime_deps(&Some("org.gnome.Platform/x86_64/46".to_string())),
        vec!["org.gnome.Platform/x86_64/46".to_string(), "org.gnome.Sdk/x86_64/46".to_string()]
    );
    assert_eq!(
        flatpak_runtime_deps(&Some("org.kde.Runtime/x86_64/6.7".to_string())),
        vec!["org.kde.Runtime/x86_64/6.7".to_string()]
    );
    assert!(flatpak_runtime_deps(&Some(String::new())).is_empty());
    assert!(flatpak_runtime_deps(&None).is_empty());
}

#[test]
fn flatpak_input_defaults() {
    let p = flatpak_package_input("org.app.A".to_string(), None, None, None, None, 7, None, None);
    assert_eq!(p.version, "unknown");
    assert_eq!(p.release, "stable");
    assert_eq!(p.arch, "unknown");
    assert_eq!(p.summary, "Flatpak application");
    assert_eq!(p.description, "");
    assert_eq!(p.pkg_type, PackageType::Flatpak);
}

#[test]
fn npm_and_pip_inputs() {
    let n = npm_package_input("left-pad".to_string(), None, 3, None);
    assert_eq!(n.version, "unknown");
    assert_eq!(n.summary, "Globally installed npm package: left-pad");
    assert_eq!(n.pkg_type, PackageType::Npm);
    let p = pip_package_input(
        "requests".to_string(),
        "2.0".to_string(),
        "HTTP".to_string(),
        "desc".to_string(),
        9,
        vec!["urllib3".to_string()],
    );
    assert_eq!(p.flatpak_deps, vec!["urllib3".to_string()]);
    assert_eq!(p.release, "N/A");
    assert_eq!(p.pkg_type, PackageType::Pip);
}

#[test]
fn runtime_references() {
    assert_eq!(
        parse_runtime_ref("org.gnome.Platform/x86_64/46"),
        Some(("org.gnome.Platform".to_string(), "46".to_string()))
    );
    assert_eq!(parse_runtime_ref("org.x"), Some(("org.x".to_string(), String::new())));
    assert_eq!(parse_runtime_ref("a/b"), None);
    assert_eq!(parse_runtime_ref(""), None);
}

fn pkg(name: &str, release: &str, t: PackageType, refs: Vec<&str>) -> PackageInput {
    PackageInput {
        name: name.to_string(),
        version: "1".to_string(),
        release: release.to_string(),
        arch: "x86_64".to_string(),
        installsize: 1,
        summary: String::new(),
        description: String::new(),
        resolved_deps: Vec::new(),
        pkg_type: t,
        flatpak_deps: refs.into_iter().map(|s| s.to_string()).collect(),
    }
}

#[test]
fn resolves_flatpak_runtimes() {
    let mut inputs = vec![
        pkg("rpm-thing", "1", PackageType::Rpm, vec![]),
        pkg("org.gnome.Platform", "45", PackageType::Flatpak, vec![]),
        pkg("org.gnome.Platform", "46", PackageType::Flatpak, vec![]),
        pkg("org.gnome.Sdk", "44", PackageType::Flatpak, vec![]),
        pkg(
            "org.app.A",
            "stable",
            PackageType::Flatpak,
            vec!["org.gnome.Platform/x86_64/46", "org.gnome.Sdk/x86_64/46", "missing/x/1", "org.app.A"],
        ),
    ];
    resolve_flatpak_deps(&mut inputs);
    // exact branch, then id-only fallback for the Sdk; unknown and self references dropped
    assert_eq!(inputs[4].resolved_deps, vec![2, 3]);
    assert!(inputs[0].resolved_deps.is_empty());
}

#[test]
fn resolves_pip_requirements() {
    let mut inputs = vec![
        pkg("Requests", "N/A", PackageType::Pip, vec!["urllib3", "charset-normalizer", "nothere", "requests"]),
        pkg("urllib3", "N/A", PackageType::Pip, vec![]),
        pkg("charset_normalizer", "N/A", PackageType::Pip, vec![]),
        pkg("urllib3", "1", PackageType::Rpm, vec![]),
    ];
    resolve_pip_deps(&mut inputs);
    assert_eq!(inputs[0].resolved_deps, vec![1, 2]);
    assert!(inputs[3].resolved_deps.is_empty());
}
