# slide2d_engine

The core of the Slide2D 2D game engine, written in Verus: tile maps, blueprint node graphs
(their model, validation and the decisions of the blueprint machine), plugins and their
runtime authorization, asset trees, project verification records, localization, and the
command line shared by the editor and the game runtime. Verus proves the functions in `src/`
against their contracts; the calls into `std::path` and `String::push` sit behind a few
trusted wrappers (`paths.rs`, `text.rs`) whose contracts are stated, not proved.

Layout:

- `src/` — the verified library.
  - `tilemap.rs` — tile layers with a position index, rectangles, flood fill, tile sets.
  - `blueprint/` — the node graph (`model`), its checks (`validation`, `graph`), the
    machine's decisions (`vm`, `actions`), variables and per-owner state (`variables`), and
    node labels (`labels`).
  - `plugins.rs` — manifest validation, the plugin registry, runtime authorization.
  - `assets.rs`, `animation.rs`, `game_ui.rs` — resource trees, names and paths.
  - `project.rs` — project identity, verification records, checksums, scene ids, recent
    projects.
  - `localization.rs`, `launch.rs`, `app_state.rs` — languages and translation, runtime
    arguments, scene bookkeeping.
  - `text.rs`, `paths.rs` — text helpers and what the library reads from `std::path`.
- `app/` — a command-line program around the library: file and directory access, the JSON
  forms of the engine's documents, and the frame loop that does the blueprint machine's
  floating-point arithmetic.
- `tests/` — tests of the library.

The program in `app/` is a command-line tool. The graphical editor, the game window, its
rendering, physics and audio are not part of this project: they are built on GUI, GPU,
physics and audio crates (egui, wgpu, winit, rapier2d, rodio, image, rfd) and on `f32`
geometry, none of which the verified library can hold; what they decide on integers, text
and graphs lives in `src/` and is verified there.

Numbers that the engine stores as `f32` are kept in the library as their IEEE-754 bit
patterns (`u32`); the program converts them.
