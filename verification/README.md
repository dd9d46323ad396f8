# esox

The bookkeeping of a small game engine and of a desktop file-tool front end,
written in Verus with its behaviour stated in contracts and proved.

`src/` is the verified library:

- `asset_id`, `registry`, `handles`, `asset_manager`: generational asset ids,
  per-kind slot registries, asset names and glTF path deduplication.
- `batching`: draw-command partitioning, stable sorting by pipeline key and
  merging of adjacent instance ranges.
- `draw_plan`: the renderer's frame plan: which passes run, in what order,
  the draws (direct and indirect) each pass issues, and the shadow pass.
- `chunk`: the active chunk window around the camera and chunk membership.
- `input`: named actions over key and mouse-button state, per fixed tick.
- `physics`: the trigger tracker (enter, stay and exit events between
  steps) and the two-way map between physics bodies and ECS entities.
- `scene`: scene saving and loading decisions: scene ids and asset names,
  which entities get a mesh renderer, the parent/child links by scene id,
  prefab roots and the entities saved for a chunk.
- `placement`, `damage`, `sdf`, `components`: grid rotation, damage regions,
  SDF shader composition, the SDF effect list, and plain component data.
- `font`: the order in which font families are tried and what a resolution
  answers.
- `text`, `dispatch`, `tools`, `form`, `jobs`, `keys`, `window`: the tool
  app's registry and sidebar, form and drop-zone state, option parsing, what each tool is
  run with, the job list and its events, and keyboard and window decisions.

`app/` is ordinary Rust around it: floating-point geometry and timing, ECS
entity ids, spawning a planned scene with `hecs`, the system font database
and the window state file.
