# taper

Chunked open-addressing hash tables for hash aggregation, written and verified
in Verus, together with the code around them: row storage, hashing, splitting
batches into partitions, and the decisions of reading parquet files in bulk.

- `src/` is the library. Every function states what it returns or changes, and
  the laws that span functions stand beside them as public proof functions whose
  names begin with `law_`.
- `tests/` runs the library on concrete values.
- `app/` is the program around it: it profiles row selections over a generated
  parquet file and reads parquet files of integer columns.

A table is modelled as a sequence of buckets, one for each chunk. The values of a
hash form its group: the sequence in which a search along the hash's probe
sequence meets them. What the hash maps promise is stated over groups, and over
the layout: the buckets that follow from the entries in the order in which they
came.
