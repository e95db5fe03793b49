# cargo-dyndrv

Plans content-addressed Nix derivations from a Cargo unit graph: one for each unit, with the
dependencies that it needs and no others. The logic is written in Verus and proved against its
contracts.

- `src/` is the verified library. `unit_graph`, `order` and `planner` decide which units are built
  and in which order; `compile` and `script` say how the derivation of a unit looks; `store` and
  `tools` say what goes into the store besides, and which programs are used. `build_wrap`,
  `env_wrap` and `target_env` are the logic of the programs that builds run under, `survey` that of
  the program that only lists sources. `path`, `text`, `sorted`, `util`, `derivation`, `package`
  and `unit_drv` are what these are made of. `laws` and `path_laws` state what holds across them.
- `tests/` runs the library on concrete values.
- `app/` holds the programs around it: processes, files, JSON and the Nix daemon.

Outside crates are used in `src/` through a few functions whose contracts are taken on trust: byte
strings come from `bytes`, and the paths of manifests are taken apart by `camino`, which
`cargo_metadata` brings along.

The configuration of build scripts is read from the file that `EXTERN_PATH` names, or else from
`extern.json` in the current directory.
