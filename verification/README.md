# rg-opendal

Search S3-compatible object stores, or a local directory, with ripgrep's
engines (`rg-opendal PATTERN s3://bucket/prefix` or `rg-opendal PATTERN DIR`).

The library (`src/`, verified with Verus) holds the decisions:

- `opendal_io`: the full-buffer reader the searcher reads an object through;
  each read hands out the next bytes in order, and nothing is lost or
  repeated between reads.
- `cli`: the command line as plain values, and target parsing
  (`s3://bucket/prefix` or a local path), with the display path
  `s3://bucket/key` that parses back.
- `walker` and `ignore_glue`: the `--glob` / `--type` / `--type-not` key filter
  built on the `ignore` crate, and the selection of listed keys: directory
  markers and refused keys dropped, the rest in byte order.
- `key_order`: that byte order, proved a total order.
- `bench_plan`: the order a benchmark visits listed objects in (files only,
  a stable sort by size).
- `pattern_matcher`: the compiled regex matcher, kept with the pattern it was
  compiled from; compiling is the only way to get one.
- `run`: the effective pattern (`-i`), the matcher build, the per-run tally and
  the exit status.

The program (`app/`) does the I/O: argument parsing, listing and reading
objects through OpenDAL (S3 or fs), searching and printing through ripgrep's
crates.
