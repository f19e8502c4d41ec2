# sigma-updates

Debian package index and OTA catalog for Sigma: the `.deb` feed, the CAN
dictionary (`.dbc`) and VSS schema mirrors, RAUC bundle channels, and a
command-line client that checks and publishes packages in dependency order.

## Layout

- `src/` — the library, verified with Verus:
  - `text` — character-level operations with the meaning of the `str`
    functions they stand for (trim, find, split, case folding, decimal).
  - `depends`, `control`, `version` — `Depends`-field and control-file
    parsing, Debian version relations (through `debversion`), and
    satisfaction of dependency expressions; `round_trip` proves that a
    parsed expression written in control syntax parses back to itself.
  - `archive`, `inspect` — reading a `.deb` from its bytes: the `ar`
    header walk (which reads panic-free up to the control member), the
    `ar`/`tar` reads (through the `ar`, `flate2`, `xz2` and `tar` crates),
    and which member and entry hold the control file.
  - `graph`, `push` — breadth-first dependency ordering of a local batch
    and the push plan (what the remote index and earlier packages leave
    unsatisfied), with the refusal message.
  - `listing`, `sort`, `packages`, `dbc` — the catalog rules: safe
    filenames, filtering and pagination, stable ordering, entries derived
    from filenames, preferred schemas, upload accounting, listing cache.
  - `sync` — which files a GitHub mirror pass downloads and prunes.
  - `catalog`, `bundles`, `config`, `api`, `templates`, `client` — OTA
    channels, bundle paths, settings with defaults, query parameters and
    JSON keys, links and URL encoding, command-line authentication; `deb_paths` orders collected `.deb`
    paths as `Path` does.
- `tests/` — tests of the library.
- `app/` — the server (`warp` routes, disk and network I/O, the mirror
  thread) and the command-line client (`cli` subcommand), around the
  library.
