# route_optimizer

Finds the shortest order in which to visit a set of EVE Online solar systems,
starting from one system and optionally ending at another. Distances between
systems (in jumps) are read from DOTLAN route pages; every order of the
systems in between is then tried and the shortest routes are kept.

Layout:

- `src/` — the verified library (Verus):
  - `system.rs`, `manager.rs`, `pair.rs`: systems, their distance tables, the
    registry of systems (one slot per registration; a pair holds slots, so a
    pair made before a system is registered again keeps reaching the system
    it was made with), pairs of systems, and the exhaustive search for the
    shortest routes (`SystemManager::build_shortest_path`), which logs its
    progress reports in the `ProgressHolder` it is given;
  - `shortest.rs`: the record of the shortest routes and the laws of
    registering routes in it;
  - `combinatorics.rs`: `itertools` permutations and combinations and the
    `factorial` crate, behind trusted wrappers;
  - `request.rs`, `utils.rs`, `route.rs`: query URLs, route pages and numbers;
  - `args.rs`, `cli.rs`: run arguments; `fetch.rs`, `progress.rs`: counters;
  - `pretty.rs`: the terminal reports; `text.rs`, `state.rs`: text, and the
    orders of a whole route (its text split at `:`).
- `app/` — the program around it: command line, HTTP requests, printing.
- `tests/` — tests of the library.
