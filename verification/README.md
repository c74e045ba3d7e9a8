# editor_domain

The domain rules of a video editor's backend, written in Verus and proved
against their contracts: timing arithmetic, the artifact and filter graphs
with their dependency orders, output and container policies, the edit and
overlay parsers, audio and colour pipelines, the collaborative project
replica, project-document migration, and the plain rules of the HTTP layer
(file names, cache keys, error classes, capability checks).

Layout:

- `src/` — the verified library. Each module states its types' models as
  spec functions and views; laws that relate several functions are public
  proof functions named `law_*`.
- `tests/` — tests of the library on concrete values.
- `app/` — the unverified edge: serde wire types and conversions, ffprobe
  output, and the floating-point models (keyframe sampling, geometry,
  probe durations) that the library does not hold.

Outside crates: `sha2` (digests) and `uuid` (fresh ids) are called from the
library through small trusted wrappers; `serde` and `serde_json` are used by
`app/` and the tests.
