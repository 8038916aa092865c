# lbr

The engine core of *Live in Backrooms*, a game in endless rooms, written in Verus: every public
function of the library carries a contract, and Verus proves that its body keeps it. The exceptions
are the trusted functions named at the end, whose contracts are taken as they stand.

- `src/` is the library. It knows nothing of windows, files or graphics cards.
  - Packs: `pack`, `dependency`, `config`, `game_path`, `resource`.
  - Assets: `handle`, `slots`, `registry`, `asset`, `gc`, `pins`, `memory`, `residency`, `pinning`,
    `budget`.
  - glTF files: `description`, `document`, `glb`, `mesh`, `texture`, `template`, `scene_load`, `client_load`.
  - Scenes: `tree`, `scene`, `scene_merge`, `scene_laws`, `client_scene`, `bounds`, `aabb`, `demo`,
    `spawn`, `hierarchy`.
  - Frames: `frame`, `material`, `number`, `renderer`, `environment`, `timestep`.
  - Picture files: `radiance`, `jpeg`, `jpeg_scan`, `png`.
  - Server and client: `protocol`, `server`, `sync`.
  - Input: `input`, `controller`, `window`.
- `tests/` runs the library on concrete values, with the outside crates linked.
- `app/` is the program around it: the window (`winit`), the card (`wgpu`), the entities
  (`bevy_ecs`), the files, the threads and the floating-point mathematics (`glam`, `mikktspace`).

Numbers of files and meshes are bit patterns of single-precision floating point (`Float2`, `Float3`,
`Float4`); placements, cameras and lights are type parameters that the program fills in.

What the library takes from outside crates stands behind small trusted functions: version rules
(`semver`, in `pack`), generational keys (`slotmap`, in `slots`), the arena of the scene tree
(`indextree`, in `tree`), glTF files (`gltf`, in `description` and `document`) and pictures (`image`,
in `environment` and `radiance`). Two more stand for std: appending a character (in `text`) and
quoting a text (in `pack`). The doc comment of each says what is taken on trust.
