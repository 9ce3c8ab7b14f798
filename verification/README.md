# specification_metrics

Measures how explicitly selected code decisions in Python, Swift and Rust are represented by
Specifications: it scans sources with Tree-sitter, keeps a durable registry of reviewed
decision sites, and reports the live `S / U` ratio and the earlier evidence coverage.

The library under `src/` is written in Verus; each function carries a contract that Verus
proves, and the laws that relate functions are public proof functions.

- `text`, `order`, `digest`: character sequences, stable sorting, BLAKE3 digests.
- `syntax`: Tree-sitter trees copied into plain values.
- `analysis`: decision candidates, fingerprints and Specification definitions of one tree.
- `fingerprint`: the form `language:path:kind:hash:occurrence`, and why no two candidates share one.
- `scope`: the source-role manifest, its canonical entries and digest, and role lookup.
- `scan`: which files count, what each contributes, and the scan report.
- `liveness`: live, dead or unknown Specification declarations.
- `metric`: the site registry, `sync`, validation and the evidence report.
- `live`: the live `S / U` report.

`app/` holds the command line: file walking and reading, Git, TOML and JSON, the SQLite
snapshot store, and the two ratios that need floating point.
