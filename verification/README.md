# vienna

Server-side logic of the Vienna services, verified with Verus.

- `src/` is the verified library: active map tiles, tappable and encounter
  spawning and their store, static-data checks, the object-store line
  protocol, the API server's decisions (inventory counts, roles, imports, log
  access and order), buildplate world files, mod files and the text that
  crosses the C boundary to mods, and mod packaging names. Calls into `rand`,
  `uuid` and `std` stand behind small trusted wrappers whose contracts say
  what those crates document.
- `app/` is the program around it: one binary whose subcommands run the API
  server, the object store, the tappables generator, the buildplate tools,
  the locator, the CDN, the event bus and the mod packager. Sockets, files,
  SQLite, zip archives, JSON, dynamic libraries and floating-point map
  geometry are handled there.
- `tests/` runs the library on concrete values.
