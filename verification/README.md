# headwater

Tools for USGS streamflow data, with the decisions and data rules proved in
Verus. The tools fetch readings from the USGS Water Data API into Parquet
(as a single file or a lake partitioned by site and year). They also publish
filtered extracts of the lake as content-addressed dataset versions that are
linked by hash, and they verify such versions.

## Layout

- `src/`: the verified library.
  - `usgs`: site IDs, query parameters, paging, request windows and the
    grouping of site metadata.
  - `lake`: the partition layout, the file schema and the grouping of
    readings into partition files.
  - `manifest`: manifests, the content hash and verification.
  - `publish`: version numbering, publish checks, summaries and filters.
  - `rows`: de-duplication.
  - `chart`: chart series.
  - `cli`: the fetch command's decisions.
  - `text`, `sort`, `digest`, `dates`: text and byte orderings, the stable
    sort, SHA-256 in hex, and calendar dates.
- `app/`: the command-line program. It handles HTTP, JSON, Arrow/Parquet and
  file-system work, and the floating-point reading values.
- `tests/`: tests of the library.

Laws such as the order-independence of the content hash, idempotent
de-duplication and exact coverage by the request windows are proof functions
in `src/`.
