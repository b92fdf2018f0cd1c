//! Installed Python distributions.
use vstd::prelude::*;
use vstd::string::StringExecFns;
use crate::graph::{PackageInput, PackageType};

verus! {

/// The graph input for a Python distribution: release `N/A`, architecture
/// `all`, its requirement names kept as unresolved dependencies.
pub fn pip_package_input(
    name: String,
    version: String,
    summary: String,
    description: String,
    size: u64,
    dependencies: Vec<String>,
) -> (res: PackageInput)
    ensures
        res.name == name,
        res.version == version,
        res.release@ == "N/A"@,
        res.arch@ == "all"@,
        res.installsize == size,
        res.summary == summary,
        res.description == description,
        res.resolved_deps@.len() == 0,
        res.pkg_type == PackageType::Pip,
        res.flatpak_deps == dependencies,
{
    PackageInput {
        name,
        version,
        release: String::from_str("N/A"),
        arch: String::from_str("all"),
        installsize: size,
        summary,
        description,
        resolved_deps: Vec::new(),
        pkg_type: PackageType::Pip,
        flatpak_deps: dependencies,
    }
}

} // verus!
