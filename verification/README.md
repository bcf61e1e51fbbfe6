# pfaedle

Matches the trips of a GTFS timetable to the streets, tracks and ferry lines of an OpenStreetMap extract,
and gives them shapes.

- `src/` is the library, verified with Verus: reading networks and timetables, collapsing graphs, searching
  paths, matching whole trips, cutting shapes, rewriting tables.
- `app/` is the program around it: files, arguments, threads, and distances on the earth, which are floating
  point.
- `tests/` holds the tests of the library.

Coordinates are ten-millionths of a degree. Lengths are millimetres, travel costs tenths of a second, times
at stops nanoseconds, and places along an edge billionths of it.
