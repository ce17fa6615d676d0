# voxview

A viewer and browser for MagicaVoxel `.vox` files, with its logic verified by
Verus.

`src/` is the library. Everything in it is executable Rust with a contract that
Verus proves:

- reading a model: `voxfile` (the way in and out of a file's bytes), `scene`
  (the scene graph), `model`, `palette`, `material`, `loader`, `mesh` (greedy
  meshing), `geom`, `fixtures`, `report`;
- finding files: `paths`, `walk`, `scan`, `watch`, `thumb`, `sysfont`;
- the library browser: `library`, `browse`, `rows`, `rail`, `selection`,
  `names`, `order`, `ui`, `panels`;
- the viewer: `session`, `viewer`, `keys`, `input`, `menu`, `hud`, `overlay`,
  `gfx`, `settings`, `edge` (the size of a grid cell), `calendar`;
- `text`: characters and numbers.

Public proof functions, named `lemma_...`, state what holds of several functions
together: that merging faces loses none of them, that a settings file reads back
as it was written, that the menu's cursor stays on screen.

What the library takes from outside it takes through functions whose contracts
are trusted. Each says in its doc comment which function it calls and what is
claimed of it.

`tests/` runs the library on concrete values. `app/` is the program around it:
the window, the graphics device, the file system, threads, and floating point.
