# photom

Loading, indexing and querying of astronomical observation datasets, with
the logic proved by Verus.

`src/` is the verified library:

- `index` — night and trajectory indices (ranges or position lists), the
  one-pass index builder used by tabular ingestion, and trajectory aliases.
- `layout` — storing an index as per-observation memberships and rebuilding
  it, in list or range layout, with the stored-format version check.
- `observation`, `night` — datasets of observations and of nights, with
  cached look-ups by id.
- `ingest` — row rules of tabular ingestion: observer resolution and the
  errors of refused rows.
- `batch` — record-batch rows: interning of custom geodetic sites and the
  per-row step that appends observations and feeds the indices.
- `mpc80` — the MPC 80-column text format.
- `ades` — identity rules of ADES observations.
- `uri` — input URIs and the storage backend that serves them.
- `text`, `cache` — string helpers and the LRU caches.

`app/` holds what stays outside the proofs: floating-point sky positions,
covariances, tangent-plane projection, photometry and epochs, file, record-batch and XML reading, object-store
construction, and the serde and error-message traits.
