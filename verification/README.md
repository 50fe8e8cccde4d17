# animstudio

The headless engine of a node-graph 2D animation suite, written in Verus:
the document model, X-sheet timing, the compositing graph and its
memoized evaluation, command-based editing with exact inverses, flood
fill, XDTS interop (the sheet's JSON read and written through serde_json,
the schema walked and checked in verified code), PNG import, project
persistence as table rows
(with `schema_version` gating what loads), and the collaborative session
room's codecs and decisions. Every function in `src/` carries a contract that
Verus proves; the laws of the library (undo restores, redo replays,
downstream-only invalidation keeps memoized values right, retiming never
touches artwork, base32 round-trips, a burned code refuses replay, a fill
always covers its seed, a saved project whose tiles carry their own hashes
loads back the same, ...) are public proof functions or clauses of the
functions they are about.

Layout:

* `src/` — the verified library.
* `tests/` — executable tests of the library.
* `app/` — the application shell: the command line, the session log
  file, frames over TCP and LAN discovery (UDP, on a thread), the update
  check's HTTP, the project file's SQL (`store_io.rs`), .xdts files on
  disk (`xdts_io.rs`), serialized forms
  of the library's records, and floating-point colour and raster math.
  The room's host and client loops, and the GUI, are not here.
