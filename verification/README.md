# cotti_build_support

Helpers for installing and building dependencies: `rm -rf`, `find`,
`install` and `tar -xf` in Rust.

- `src/` is the verified library. It holds the decisions these commands
  make, on paths held as their raw bytes and on plain values: path joining and file names
  (`path`), the search pattern and the filtering of what a search found
  (`find`), the removal plan (`remove`), the choice of sources and the
  steps of an installation, which keep the source's folder structure
  (`install`), and the archive format and
  decompression of an archive (`archive`).
- `app/` holds the functions with the filesystem work (`rm_rf`, `find`,
  `find_files`, `find_dirs`, `install`, `untar`): each looks at the disk,
  hands what it saw to the library and carries out the steps it returns.
