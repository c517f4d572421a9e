# voxelhex

A sparse voxel container: a tree of nodes, each splitting its cube into 4x4x4
children, with bricks of voxels at the bottom and optional MIP maps summarising
the colors below every node. The library is written in Verus; its functions
carry contracts that Verus proves.

Layout:

- `src/lib.rs`: the library version, reading version texts, compatibility.
- `src/spatial.rs`: vectors and cubes, sectants and child cubes, brick indexing.
- `src/boxtree/`: the tree.
  - `types.rs`: colors, bricks, node contents, the tree and its entries.
  - `mod.rs`: the invariant of the tree, construction and lookup, the color palette
    and its index by packed color.
  - `update.rs`: inserting voxels.
  - `strategy.rs`, `resample.rs`, `mipmap.rs`: MIP map settings, resampling
    methods (over a stream of colors, so regions of any size are sampled) and
    keeping the MIP maps up to date.
  - `iterate.rs`: splitting an update range over the children of a node.
  - `render_data.rs`: descriptor words the renderer reads.
  - `bytecode.rs`: storing a tree as a bencoded list of numbers (through the
    `bendy` crate) and reading it back; `readback.rs` proves that a tree read back
    holds what was written.
- `src/raytracing.rs`: what the renderer is handed.
  - `raytracing/cache.rs`: the cache of nodes and bricks a view keeps for the GPU
    (node and brick slots paired with the tree through `bimap`), writing nodes and
    bricks into it, checking upload requests before they are carried out,
    deciding which queued node or brick to upload next, how a brick slot stands
    when one is searched for, walking the tree below a node to build a view's
    node and brick queues, and the buffer ranges a frame changed.
  - `raytracing/upload_queue.rs`: the path from the root down to the smallest
    node covering a view.
- `app/lib.rs`: saving and loading trees through the file system.
- `app/brick_slots.rs`, `app/uploads.rs`: choosing the brick slot to overwrite by
  distance from the view (floating point), the per-frame upload loop, and turning a
  view's position and distance (floating point) into the integer ranges the library
  builds the queues from.
- `tests/`: tests of the library.
