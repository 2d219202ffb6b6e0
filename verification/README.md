# factorio_3d

A 3D view for Factorio, drawn over the game's own rendering: entities stand up as
sprites or as glTF models, the ground is tilted under a free camera, and the rest
of the interface stays where it was.

## Layout

- `src/` is the library: everything that decides or computes on plain values. It is
  verified with Verus; each public function says in its `ensures` what it returns,
  and the `lemma_*` functions state what holds across several of them.
  - reading the game: `mem`, `getters`, `symbols`, `hooks`, `namemap`, `idmap`,
    `entities`, `player`, `track`, `explore`
  - recording a frame: `capture`, `sprites`, `billboards`, `draw`, `item_draws`,
    `items`, `machines`, `wires`, `connect`, `grid`, `split`, `frame`, `present`
  - drawing it: `camera`, `picking`, `view_cull`, `renderer`, `quads`, `order`,
    `warp`, `daynight`, `sky`
  - models: `models`, `paths`, `gltf_model`, `geometry`, `textures`, `pose`,
    `model_plan`, `tuning`
  - shared: `text`, `util`
- `tests/` runs the library on concrete values.
- `app/` is the part around it: the DLL's entry point, detours, Direct3D, file
  access and the floating-point mathematics of the camera and of skinning.
- `extras/offsets.json` holds the names and offsets of the game functions to hook,
  and `extras/shaders/` the HLSL sources. Both belong next to the built library.
  The models mod needs eight more shaders in the same folder, which are not part
  of this repository: `model_common`, `model_vs`, `model_ps`, `warp_common`,
  `warp_vs`, `warp_ps`, `sky_vs` and `sky_ps`. Without them only the billboards mod
  starts.

## Units

The library works on integers. Map positions are in 1/256 of a tile, angles in
tenths of a degree, footprints in thousandths of a tile. A float that is only
carried along is kept as its bits; one that is compared is kept as an integer that
orders the same way.
