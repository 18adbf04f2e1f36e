# wm2026 — World Cup 2026 Monte Carlo simulation, verified core

Simulates the 2026 FIFA World Cup (48 teams, 12 groups, 32-team knockout) many times over,
with real results fixed as they come in, and reports each team's chances.

The crate is split in two:

- `src/` is the library, verified with Verus: the bracket and group fixtures, loading and
  indexing teams and results, group tables and rankings, the slotting of the eight best
  third-placed teams, the step-by-step state of one simulated tournament (real results are
  kept, everything else is asked of the caller), the tally of many tournaments, the
  knockout matches that real results already decide, the timeline of saved snapshots, and
  the integer side of the report (table rows, orders, the drawn bracket, flags).
- `app/` is the program around it: command-line flags, JSON files, the floating-point match
  model (Elo, Poisson goals with the Dixon-Coles correction, dynamic Elo, shootouts), the
  random draws, and the HTML report.

Modules of the library:

| module       | contents                                                              |
|--------------|-----------------------------------------------------------------------|
| `bracket`    | groups, fixtures, match ids, the knockout bracket, third-place slots  |
| `model`      | teams, results, `Data::build` with its errors, per-fixture lookups    |
| `standings`  | ranking keys, rankings, real group standings and best thirds          |
| `sim`        | third-place slotting (`slot_thirds`, `match_thirds`), the `Tally` and its invariant |
| `tournament` | `TournamentRun`: the steps and outcomes of one simulated tournament   |
| `analysis`   | determined fixtures, played matches, stage names                      |
| `settled`    | what real results settle in every simulated tournament                |
| `history`    | snapshots, `upsert`, result tags and signatures, stage labels         |
| `report`     | table rows, card and count orders, bracket children and leaves, flags, result labels |
| `text`       | decimal/hex notation, `u32` parsing, string comparison                |

The program reads `data/teams.json` and `data/results.json`, keeps a timeline in
`data/history.json` and writes `web/index.html`; `--sims`, `--teams`, `--results`,
`--history`, `--out`, `--opta`, `--no-snapshot`, `--dump-schedule` and the model parameters
(`--home-adv`, `--total-goals`, `--supremacy`, `--form-weight`, `--dc-rho`, `--dyn-k`) change
that.

## Slotting the third-placed teams

FIFA's regulations fix, in the table of Annex C, which of the eight qualified third-placed
groups plays in which of the eight round-of-32 slots, one row for each of the 495 possible
sets of groups. That table is not part of this project's sources, and it is not
reproduced here. In its place the library uses a rule with the same shape: the slotting
is a function of the set of qualified groups alone (never of how the thirds ranked, nor of
any iteration order). The groups are taken in alphabetical order and the first valid
assignment is used, trying slots in match order (74, 77, 79, 80, 81, 82, 85, 87) and, for
each slot, the groups it accepts in alphabetical order (`slot_thirds`,
`lemma_slotting_by_set`, `lemma_slotting_by_qualified_groups`). Every set of eight groups
can be slotted this way. Where a slot differs from Annex C, the bracket drawn by the
program differs from FIFA's for that set of groups.
