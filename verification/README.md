# geist

The core of a voxel world, written in Verus: block registry and block
state packing, chunk generation rules, chunk lighting, greedy meshing,
block edits, the tick-scheduled event queue, the chunk slot table and
the rebuild scheduler. Every function in `src/` carries a contract that
Verus proves.

Layout:

- `src/` — the verified library, one module per concern:
  - `types`, `config`, `registry`, `layout`, `state`, `compile`,
    `construct`: block definitions, the compiled registry, state layouts
    and packing, per-state material and occlusion tables.
  - `world`, `worldgen`, `chunkbuf`, `sun`: terrain rules and chunk buffers.
  - `grid`, `propagate`, `lighting`: light fields and their propagation.
  - `greedy`, `meshing`, `meshutil`, `mesher`: face tests and greedy
    rectangles per chunk slice.
  - `edit`, `keys`, `coords`, `inventory`, `intents`, `event`,
    `session`: edits and revisions, chunk slots, rebuild scheduling, the
    event queue and the small records passed around the game loop.
  - `assets`, `tabs`, `minimap`, `snap`, `raycast`, `mcworld`, `strorder`:
    asset paths, overlay tabs, UI sizing, snapshot settings and names.
- `tests/` — tests of the library on concrete values.
- `app/` — the command-line program: argument parsing, reading the TOML
  configuration files, noise sampling for terrain heights, and a report of
  the generated and lit chunks.
