# pq-vector

An inverted-file (IVF) index over the vector embeddings of a Parquet file, and
top-k search with it.

- `src/` is the library, verified with Verus: building an index (k-means with
  k-means++ seeding), its serialized form, which clusters and rows a search looks
  at, which rows are read and in what order, and which of them are reported.
- `app/` holds the float arithmetic, the threads and the file access around it.
- `tests/` runs the library with floats.

A value is held as the 32 bits of a float. The library compares values by those
bits and never computes with them: distances, sums, quotients, random fractions
and roots are functions that the caller hands in, and each contract says which
calls were made and what became of the results.

| module | what it states |
| --- | --- |
| `scalar`, `order`, `ranges`, `heap` | comparing floats by their bits, stable sorting, sharing out work, a max-heap |
| `count`, `embeddings`, `error` | validated counts, column names and matrices, and what is refused |
| `arithmetic`, `distance`, `matrix`, `nearest` | the caller's operations, squared distances, rows of matrices, nearest centroids |
| `rng`, `seeding`, `kmeans`, `builder` | random choices, seeding, clustering, building an index |
| `reproducible` | that the same input gives the same index |
| `codec`, `index` | the serialized form, and the index in memory |
| `calls`, `exact`, `pairs` | what holds between calls, and that a search is exact in one file and over several |
| `request`, `selection`, `search`, `nonuniform` | search requests, reading rows, top-k results, one budget over several files |
