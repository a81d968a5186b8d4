# stranger

Audit a dependency tree without installing, resolving, or phoning anything:
read the lockfiles under a directory, and report names nobody has heard of,
code that runs at install time, unpinned requirements and version drift.

The library in `src/` is written in Verus. Every reader, rule, renderer and
decision carries a contract, and Verus proves the code meets it:

- `json`, `toml`, `yaml` — parsers for the subsets lockfiles use, each
  production a spec function over the input's characters;
- `lock` — one reader per lockfile format (npm, pnpm, Cargo, pip, poetry,
  uv, go.mod, yarn v1), each specified as the tree it must build;
- `rules`, `corpus`, `distance`, `semver` — the findings and what they rest on;
- `diff`, `tree`, `report`, `term`, `cli`, `walk` — comparing two trees,
  answering "who depends on this", rendering, arguments, and what a
  directory walk skips.

`app/` is the program around it: arguments from the environment, the
filesystem walk, reading files, threads, and printing.

`tests/` runs the library on concrete inputs.
