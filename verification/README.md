# gtfs_structures

Reads the static part of a GTFS feed (General Transit Feed Specification) and
links its objects: stops, routes, trips with their ordered stop times,
calendars and their exceptions, shapes, fares and feed information.

- `src/` is the library, verified with Verus:
  - `text.rs`: reading times `H:MM:SS` (and the decimal numbers in them);
  - `date.rs`: days of the calendar, read and displayed through chrono;
  - `kinds.rs`: the enumerations of the format and the codes that name them;
  - `objects.rs`: the objects of the feed, with the `Id` and `Type` traits;
  - `id_map.rs`: a map from identifiers to values, found by a hash of the
    identifier;
  - `ordering.rs`: the stable order of stop times by sequence number;
  - `tables.rs`: which file of an archive holds which table;
  - `gtfs.rs`: the feed as read (`RawGtfs`), the feed once indexed (`Gtfs`),
    and the days on which a service runs.
- `app/` reads feeds from directories, zip archives and URLs (csv, serde, zip,
  reqwest) into the library's types.
- `tests/` exercises the library on concrete feeds.
