# MapWeave

The data side of a small vector-map viewer, written in Verus.

`src/` is the verified library:

- `protobuf`, `vector_tile`: the protobuf envelope of Mapbox Vector Tiles, read
  over byte windows with `prost`'s wire primitives.
- `geometry`: the MVT geometry command streams (MoveTo / LineTo / ClosePath,
  zigzag deltas) decoded into paths.
- `decode`: feature classes, ring classification by winding, and the split of a
  tile into roads and polygons.
- `map`, `scene`: routing features into background, building and road layers.
- `geo`: integer tile arithmetic (spans, scales, origins, index ranges) and the
  merge of tiles into one world-space scene.
- `fetch`, `config`, `provider`: URL templates, cache paths, provider presets and
  the bytes-to-scene step.
- `viewer`, `runtime`, `road_style`, `triangulate`, `stats`: tile selection for
  the viewer, in-flight bookkeeping, road styling and draw order, ring grouping,
  draw statistics.

Each public function states what it returns over spec functions; the laws that
span functions are public proof functions next to the code they speak of.

`app/` is the native viewer around the library: window and input (winit), GPU
rendering (wgpu), camera and projection math in floating point, triangulation
(earcutr), HTTP and the disk cache (reqwest), logging, and the async job runtime
(tokio).

`tests/` exercises the library on concrete inputs.
