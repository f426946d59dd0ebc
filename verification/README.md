# jewelcase

The indexing core of a self-hosted music server: it walks a music library,
reads each file's tags, resolves artwork and lyrics sidecars, decides what is
new, changed, moved, missing or broken, and keeps an index of it that a
resumable scan queue updates in batches.

`src/` is the library, written and proved with Verus. Its functions carry
`requires`/`ensures` contracts over mathematical models (sequences, maps, the
views of its types), and its laws are public proof functions:

- `text`, `order`, `paths`, `comps_order`, `fold`, `sort`, `multi_value`:
  strings, path components and their orders, name folding, sort keys,
  multi-valued tags.
- `format`, `audio`, `tags`, `lrc`, `lines`, `tag_map`, `scan_tags`: formats,
  tag sets, dates, lyrics, and the mapping of a file's tags onto one tag set.
- `discover`, `excludes`, `sidecar`, `identity`, `problems`, `image`: the
  walk, exclude globs, sidecar resolution, track identity, problem records,
  artwork description.
- `scan`, `scan_run`, `store`, `keyed`, `queue`, `triggers`, `duplicates`:
  one scan's decisions and its course over its scopes, the index and its
  change feed, the scan queue, filesystem triggers and duplicate groups.
- `model`: how tags become the catalog: a track's artist and album credits
  and the keys they are found by, what an artist or album row becomes when
  its tracks change, the lyrics kind a track records and the artist sort key
  an album takes, where a problem is grouped, and the duplicate-detection
  view of a track.
- `ffmpeg`, `registry`, `analysis`, `catalog`, `ids`, `io`, `types`: the
  ffmpeg process pool and what its output means, analysis bookkeeping, the
  catalog's naming rules, row ids and the shared types.

`app/` is the program around it: directory listings, tag reading with lofty,
ffmpeg and ffprobe processes, threads, the filesystem watcher, and the
floating-point audio analysis. It makes the library's decisions, never its
own.

`tests/` runs the library on concrete values.
