# kil_core

A compiler for the KiCad Intent Language (KIL): declarative circuit and layout
documents (`*.kil.json`, format version 2) are checked, elaborated and turned
into a KiCad 10 project. The logic is written in Verus; each public function
states its result exactly over mathematical models (`Seq`, `Map`-like sorted
pair lists, plain views of the library's types) and is proved against that
statement.

## Layout

- `src/` — the verified library.
  - `source`, `modules`, `elaboration` — authoring documents, module
    instantiation and parameters, printed references, net merging.
  - `validate`, `source_map`, `diagnostic` — the structural checks of a project
    document and their findings, located by JSON pointer.
  - `layout` — placement plans, relative anchors and their cycles.
  - `library`, `lock` — library symbols, derived symbols, the asset lock and its
    fingerprint.
  - `rules`, `stackup`, `kicad`, `footprint`, `board`, `schematic`,
    `project_file`, `generate` — net classes, design rules, layer tables, placed
    footprints, the board, the schematic pages, the project file and the whole
    generated project.
  - `routing`, `route_workflow`, `route_run`, `repair` — route caches, copper
    preservation, the routing run as a state machine, DRC summaries and the
    repair report.
  - `pipeline`, `build_run` — exit classes, KiCad reports, validation settings,
    and the check/build run as a state machine.
  - `connectivity` — S-expressions and the comparison of an exported netlist
    with the project's nets.
- `tests/` — tests that run the library with its outside crates linked.
- `app/` — the command-line front end: reading files, floating-point geometry,
  and printing.

Lengths inside the library are integers in nanometres and angles millionths of
a degree; the front end converts the documents' millimetre values and maps
them into KiCad's coordinate frames. Calls into `serde_json`, `sha2`, `uuid`
and `kiutils_sexpr` stand behind a small number of trusted wrappers whose
contracts say what the library relies on.
