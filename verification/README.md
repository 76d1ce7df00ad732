# arnis

The decisions of a generator that turns OpenStreetMap data into Minecraft worlds, verified
with Verus.

## Layout

- `src/` is the verified library.
  - `retrieve_data` cuts an area into tiles, asks for them one after another, cuts further where
    a server cannot cope, and merges the replies. `coverage` and `course` prove that the tiles
    leave no gap, that a fetch ends, and that it holds data for every point of the area.
  - `data_processing` picks the generator of each map element, plans the stages in which elements
    are processed, and lays the ground.
  - `world_editor` builds the tags of sections and chunks, merges entities, and plans what is
    written to a region.
  - `ieee754` computes with floating-point numbers that are given by their bits. `nbt`, `json` and
    `text` hold the values that the rest works on.
- `tests/` runs the library, also against the arithmetic of the machine.
- `app/` is the program around the library: network, disk, threads and progress bars. What the
  library does not hold — the generators themselves, the terrain and the store of blocks — it
  takes through the traits in `app/host.rs`.

## What is trusted

The library calls `serde_json`, `rand` and a few string functions of the standard library through
functions marked `#[verifier::external_body]`. Each of them names the function that it calls and
says what is claimed of it.
