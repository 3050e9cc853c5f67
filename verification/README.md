# van_world

Generative pipeline for Vangers worlds: cascaded pixel diffusion (stage 1: the
coarse structure of a world, 4 channels; stage 2: its detail at eight times the
resolution, 10 channels), toroidal tile-by-tile generation, and decoding to
playable levels.

- `src/` is the verified library. Its contracts are checked by Verus.
  - `world`: level data and worlds, and the codec between them
  - `sampler`, `crops`: training patches cut out of worlds, and what holds of
    mirrored and moved ones
  - `graph`, `model`, `names`: the plan of the network and its parameters
  - `lower`: building a meganeura graph from a plan
  - `tiled`, `generate`, `runs`: canvases, tiles, the steps of a generation, and
    what holds of whole generations
  - `decode`, `settings`: generated canvases as worlds, and level settings
  - `checkpoint`, `training`: parameters on disk, and the training schedule
  - `preview`: counts over worlds and grey-scale images
- `tests/` holds its tests.
- `app/` is the program around it: files, devices, random draws and
  floating-point arithmetic. Its commands are `stats`, `train_struct`,
  `train_sr`, `sample_sr` and `world_gen`, as in
  `van_world train_sr --overfit --steps 3000`; a link to the program under one
  of these names runs that command.

Values are floating-point numbers in the program. The library moves them about
as values of any type and takes the arithmetic on them as functions, so its
contracts say which function is applied to which values and where the results
go.
