# iso_library

A game library for disc images and archives (`.iso`, `.zip`, `.7z`) with metadata from
the RAWG web API.

- `src/` is the verified library: how a file name becomes a search name, which files a
  scan keeps and in what order, which directories may join the library, the checks made
  before and after each request to RAWG, the ranking of search candidates and the
  acceptance threshold, the API key and the request counter, and the decisions of a
  metadata batch. Each function states its behaviour in its contract; the laws of the
  library are the `law_*` proof functions.
- `app/` is the desktop program around it: the Tauri commands, the SQLite database, the
  HTTP client, the directory walk and the similarity score (a floating-point number).
- `tests/` runs the library on examples, and compares the name cleaning with the same
  rules written as regular expressions.
