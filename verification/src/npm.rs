//! Globally installed npm packages.
use vstd::prelude::*;
use vstd::string::StringExecFns;
use crate::bun::{global_summary, opt_string_view, summary_of};
use crate::flatpak::or_default;
use crate::graph::{PackageInput, PackageType};

verus! {

/// The graph input for a globally installed npm package: version `unknown`
/// when npm names none, release `N/A`, architecture `all`, no dependencies.
pub fn npm_package_input(name: String, version: Option<String>, size: u64, description: Option<String>) -> (res:
    PackageInput)
    ensures
        res.name == name,
        res.version@ == or_default(version, "unknown"@),
        res.release@ == "N/A"@,
        res.arch@ == "all"@,
        res.installsize == size,
        res.summary@ == global_summary("Globally installed npm package: "@, name@, opt_string_view(description)),
        res.description@ == or_default(description, Seq::empty()),
        res.resolved_deps@.len() == 0,
        res.pkg_type == PackageType::Npm,
        res.flatpak_deps@.len() == 0,
{
    let summary = summary_of("Globally installed npm package: ", &name, &description);
    let description = match description {
        Some(d) => d,
        None => String::new(),
    };
    let version = match version {
        Some(v) => v,
        None => String::from_str("unknown"),
    };
    PackageInput {
        name,
        version,
        release: String::from_str("N/A"),
        arch: String::from_str("all"),
        installsize: size,
        summary,
        description,
        resolved_deps: Vec::new(),
        pkg_type: PackageType::Npm,
        flatpak_deps: Vec::new(),
    }
}

} // verus!
