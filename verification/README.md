# steve

Content management for an iPod: download podcast episodes from RSS feeds,
prune old ones, and mirror podcasts and music onto the device with `rsync`.

- `src/` is the verified library: episode file naming (`prepare`), feed reading
  (`feed`), configuration limits (`config`), mirroring plans (`sync`), the
  preparation summary (`summary`), path and text helpers (`paths`, `text`).
- `app/` is the command-line program around it: argument parsing, configuration
  loading, HTTP downloads, the file system and `rsync`.
- `tests/` exercises the library.
