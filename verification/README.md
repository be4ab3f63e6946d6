# playground_example

The Aomi playground plugin (`echo` and `greet` tools) together with the
Goal Digger match and tournament simulator.

- `src/` is the verified library (Verus):
  - `params` — the simulation draw count and the seeds;
  - `knockout` — settling a knockout tie through extra time and penalties;
  - `tally` — counting the scorelines a match simulation draws, with the most
    frequent scorelines;
  - `ranking` — stable ordering by a count, largest first;
  - `bracket` — the power-of-two team-count rule, a bracket played tie by tie,
    and the title tally of a tournament;
  - `greeting`, `decimal` — the text of the `greet` tool and of error messages.
- `app/` is the plugin itself: the tool implementations and registration, and
  the floating-point side of the simulator (expected goals, the scoreline
  probability grid, random draws, probabilities), which drives the library.
- `tests/` exercises the library on concrete values.
