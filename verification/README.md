# pkglist

Explore the packages installed on a system (rpm through `dnf5`, flatpak, npm,
Bun, pip) and the disk space they and their dependencies take.

## Layout

- `src/`: the library, verified with Verus.
  - `graph.rs`: the dependency graph, its reverse edges, and for each package
    its transitive size (the package and everything it needs) and exclusive
    size (what removing it frees), with the laws that relate them.
  - `dnf.rs`: parsing of `dnf5 repoquery` records and resolution of RPM
    capabilities into package indices.
  - `bun.rs`, `flatpak.rs`, `npm.rs`, `pip.rs`: the other backends' text
    formats and graph inputs; `runtime.rs` resolves flatpak runtimes and pip
    requirements into package indices.
  - `order.rs`: package orders and the stable sort; `listing.rs`: the rows of
    `pkglist list` and `pkglist info`; `tui.rs`: the browser's state machine.
  - `text.rs`: character-level text functions over `Seq<char>` models.
- `app/`: the program: command-line parsing, running the package managers,
  reading files, printing, and drawing the terminal interface.
- `tests/`: tests of the library on concrete inputs.
