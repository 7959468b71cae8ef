# zap_core

A LAN file-sharing server whose request handling is verified with Verus.

- `src/` is the verified library: URL, query and cookie parsing, percent-decoding,
  path resolution below the shared root, the session gate and login form, request
  routing, the JSON bodies of folder listings and searches (with a search walk that
  respects its caps), download and upload decisions, transfer totals, the recent-clips
  ring, and the small decisions of the Android bridge. Each public function states its
  result exactly; the `law_*` proof functions state what holds across calls.
- `app/` is the I/O around it: the `tiny_http` server with its threads, file-system
  reads and writes, and the JNI entry points for the Android app.
- `tests/` runs the library on concrete values.
