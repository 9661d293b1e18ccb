# block_game

A voxel world whose logic is verified with Verus.

`src/` is the verified library:

- `vector` — integer grid vectors.
- `chunk` — block types, chunks of 16 × 16 × 256 blocks and their flat
  indexing.
- `mesh` — the mesh of a chunk's visible block faces, with vertices counted in
  half blocks so that every position is exact.
- `terrain` — the lattice hash under the value noise, and the rules that turn
  noise samples and random draws into the blocks of a chunk.
- `player` — a player's name and the block the player is in.
- `chunk_manager` — the chunks loaded around the players, their meshes, and
  which chunks to load or drop.

`app/` is the game around it: the SDL window, OpenGL drawing, the
floating-point noise and camera, and the main loop.
