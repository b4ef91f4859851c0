# woodland

Game logic of a top-down survival world, written in Verus and proved against
its contracts, with the Bevy game around it.

- `src/` — the library, every function verified:
  - `grid` — integer grid positions and the map keys that stand for them;
  - `world` — seeds from world names, disks of chunk coordinates, chunks and
    the map of generated chunks, walking costs, chunk loading, shore shapes,
    noise seeds and white noise, and what tiles are drawn with;
  - `creatures` — goals and tasks, task deadlines, A* path finding (the
    returned walk is a cheapest one; `None` only when no walk exists or the
    search bound is reached), walking to and chasing a target, and the
    predator/prey relations of the creature database;
  - `items` — item kinds, planning and carrying out merges of stacks (items
    are conserved), and inventories with selection and pickup;
  - `debug` — the debug overlay's state and the text of its lines;
  - `asset_loading` — picking an image variant from a hash.
- `tests/` — tests of the library on concrete values.
- `app/` — the game itself: Bevy plugins and systems, floating-point noise,
  physics and rendering, file access and the RON database loader. It calls
  the library for every decision listed above.
