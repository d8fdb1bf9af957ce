# cfb

A verified library for Compound File Binary (structured storage) files: small
file systems, of storages and streams, inside one file.

- `src/` is the library, verified with Verus.  What it has from `byteorder` and
  from `std` comes through small wrappers, marked `external_body`, whose
  contracts are trusted: the reads and writes of numbers in `bytes`, UTF-16 and
  upper case in `text`, the components of a path in `path`, and decimal numbers
  and the quoting of paths in `error`.
  - `layout`, `dir_entry`, `bytes`, `text`, `version`, `constants`: what the
    bytes of a file mean, and how entries and names are written;
  - `open`, `create`: opening a file a piece at a time, and making a new one;
  - `compound`, `storage`, `stream`: compound files and the objects in them;
  - `directory`, `path`, `chain`: sibling trees, paths, and chains of links;
  - `error`: what can go wrong, and how it is told;
  - `directory_laws`, `path_laws`, `file_laws`, `rename_laws`, `stream_laws`:
    what holds of several of these together.
- `tests/` runs the library on files in memory.
- `app/` is the library over anything that can be read, written and sought.

Files in memory (`Vec<u8>`) are read and written by the library itself.  For
other files it says which bytes it wants, or wants written, and `app/` does it.

Damaged files can have chains of sectors, or trees of entries, that never end.
Functions that follow them require that they end; for each there is one that
tests it (`can_look_up`, `can_go_on`, `can_seek`, `can_advance`) or that takes
any file (`try_open`, `try_entry`, `try_read_storage`, `try_open_stream`).
