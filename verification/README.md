# dungeon_feature

Rules of a floor-by-floor dungeon crawler, and the tool that makes its
sprites, written in Verus.

- `src/` — the library, verified: items, equipment and inventory, item
  transfer between floors and runs, combat arithmetic, BSP floor generation
  (every walkable tile proved reachable from the spawn point)
  and line of sight, the enemies' state machine, the ending's item choice,
  and for the sprite tool the manifest, prompts, retry decisions, API answer
  decoding and the image post-processing (centred crop and background flood
  fill).
- `tests/` — tests of the library.
- `app/` — the programs around it: the Bevy game (`dungeon-feature`) and the
  sprite generator (`dungeon-feature sprite-gen list|preview|generate|batch`),
  with everything that is floating point, rendering, input, networking or
  files.
